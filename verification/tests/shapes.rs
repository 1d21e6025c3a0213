use pix_harness::shapes::{
    cluster_pix_yaml, entry_config, entry_dimensions, fill_enabled, install_profile,
    max_served_without_progress, max_surb_upstream_bits, per_cycle, surb_balancer,
    surb_buffer_bytes, surb_buffer_target, Overrides, BUDGETED_CYCLES, CYCLE_PACKETS,
    DEFAULT_SURB_BUFFER, FILL_FINISH_PERCENT, FILL_MAX_RATE, FREE_CREDIT, MAX_DEPOSIT_WAIT_SECS,
    MAX_RECOVERY_SECS, NOMINAL_CYCLE_SECS, PACKET_PAYLOAD_SIZE, PRICE_PER_BYTE_NANOS,
    QUOTA_PER_SSA, QUOTA_RANGE_MAX, QUOTA_RANGE_MIN, SURB_BUFFER_SECS,
    TARGET_PACKET_RATE,
};

fn set(name: &str) -> Option<String> {
    Some(name.to_string())
}

/// The profile's own arithmetic, restated independently of the constants that produced it.
///
/// Not a tautology: every figure here was computed by hand when the profile was chosen, and this is
/// what catches a geometry edited without re-deriving what depends on it.
#[test]
fn the_profile_arithmetic_holds() {
    assert_eq!(81_920, CYCLE_PACKETS);
    assert_eq!(85_032_960, QUOTA_PER_SSA);
    assert_eq!(273, NOMINAL_CYCLE_SECS);
    assert_eq!(4_800, DEFAULT_SURB_BUFFER);
    assert_eq!(16_384, FREE_CREDIT);
}

/// The buffer must be a small fraction of a cycle — the ratio production runs at, and the one this
/// profile exists to reproduce.
#[test]
fn the_surb_buffer_is_a_small_fraction_of_a_cycle() {
    let ratio = DEFAULT_SURB_BUFFER as f64 / CYCLE_PACKETS as f64;
    assert!(
        (0.03..0.10).contains(&ratio),
        "buffer/E is {ratio:.3}, outside the 3-10% band the deployed profile sits in (5.2%)"
    );
}

/// Fill must be able to finish an idle cycle inside its aim point without hitting the ceiling.
#[test]
fn the_fill_ceiling_clears_an_idle_cycle() {
    let aim_point = MAX_RECOVERY_SECS as f64 * (FILL_FINISH_PERCENT as f64 / 100.0);
    let needed = CYCLE_PACKETS as f64 * 1.05 / aim_point;
    assert!(
        needed <= FILL_MAX_RATE as f64,
        "an idle cycle needs {needed:.0} packets/s against a ceiling of {FILL_MAX_RATE}"
    );

    // And the same at the widest quota the Exit admits, which is what the validator checks.
    let widest = (QUOTA_RANGE_MAX / PACKET_PAYLOAD_SIZE) as f64 * 1.05 / aim_point;
    assert!(
        widest <= FILL_MAX_RATE as f64,
        "the widest accepted quota needs {widest:.0} packets/s against {FILL_MAX_RATE}; \
         validate_incoming_session_pix_config would refuse this config at load"
    );
}

/// The free credit covers the queue, which is what lets `max_served_without_progress` stay at
/// upstream's default. If a profile change breaks this, the derived value must rise with it.
#[test]
fn the_free_credit_covers_the_drain() {
    assert!(FREE_CREDIT > DEFAULT_SURB_BUFFER);
    assert_eq!(2048, max_served_without_progress(&Overrides::default()));
}

/// The rendered YAML names every field the profile means to move.
#[test]
fn the_rendered_yaml_carries_the_geometry() {
    let yaml = cluster_pix_yaml(&Overrides::default());
    for key in [
        "num_ssa_parts: 1024",
        "ssa_part_size: 64",
        "additional_shares: 16",
        "max_recovery_time: 720s",
        "max_deposit_wait: 30s",
        "fill_enabled: true",
        "fill_max_rate: 250",
    ] {
        assert!(yaml.contains(key), "missing `{key}` in:\n{yaml}");
    }

    // The deposit is the price times the quota, and both sides compute it independently — a
    // per-deposit ceiling below it refuses every cycle, which reads as "the Entry never paid".
    let per_cycle = QUOTA_PER_SSA as f64 * (PRICE_PER_BYTE_NANOS as f64 * 1e-9);
    assert!(
        per_cycle > 0.0 && per_cycle < 1.0,
        "one cycle costs {per_cycle} wxHOPR, which the cluster's fixed Safe float cannot fund \
         {BUDGETED_CYCLES} times over"
    );
}

/// The YAML, character by character, against floating-point formatting of the amounts.
#[test]
fn the_rendered_yaml_is_exact() {
    let price = 1e-9;
    let cost = QUOTA_PER_SSA as f64 * price;
    let expected = format!(
        "num_ssa_parts: 1024\nssa_part_size: 64\nadditional_shares: 16\n\
         quota_range_min: 60000000\nquota_range_max: 100000000\nmax_ssa_delivery_time: 20s\n\
         max_deposit_wait: 30s\nmax_recovery_time: 720s\nmax_served_without_progress: 77\n\
         fill_enabled: false\nfill_max_rate: 250\nprice_per_byte: \"{:.10} wxHOPR\"\n\
         max_ssa_allocation: \"{:.4} wxHOPR\"\nmax_spend_per_window: \"{:.4} wxHOPR\"\n\
         safe_deposit_float: \"{:.4} wxHOPR\"\n",
        price,
        cost * 2.0,
        cost * 12.0,
        cost * 12.0
    );
    let overrides = Overrides { surb_buffer: None, max_served: set("77"), fill: set("0") };
    assert_eq!(expected, cluster_pix_yaml(&overrides));
    assert!(expected.contains("\"0.0000000010 wxHOPR\""));
    assert!(expected.contains("\"0.1701 wxHOPR\""));
    assert!(expected.contains("\"1.0204 wxHOPR\""));
}

#[test]
fn a_buffer_deeper_than_the_credit_raises_the_served_limit() {
    let mut overrides = Overrides::default();
    overrides.surb_buffer = set("16384");
    assert_eq!(2048, max_served_without_progress(&overrides));
    // From the first buffer that outgrew the credit, the limit is above the default.
    for (buffer, limit) in [
        ("16385", 2049),
        ("17000", 2049),
        ("18132", 2049),
        ("18133", 2049),
        ("18134", 2050),
    ] {
        overrides.surb_buffer = set(buffer);
        assert_eq!(limit, max_served_without_progress(&overrides), "{buffer}");
    }
    overrides.surb_buffer = set("20000");
    assert_eq!(20000, surb_buffer_target(&overrides));
    assert_eq!(20000 - 16384 + 300, max_served_without_progress(&overrides));
    overrides.max_served = set("7");
    assert_eq!(7, max_served_without_progress(&overrides));
    overrides.max_served = set("seven");
    assert_eq!(3916, max_served_without_progress(&overrides));
    overrides.surb_buffer = set("18446744073709551615");
    assert_eq!(u64::MAX - 16084, max_served_without_progress(&overrides));
}

#[test]
fn fill_is_on_unless_it_is_switched_off() {
    let mut overrides = Overrides::default();
    assert!(fill_enabled(&overrides));
    overrides.fill = set("0");
    assert!(!fill_enabled(&overrides));
    overrides.fill = set("false");
    assert!(!fill_enabled(&overrides));
    overrides.fill = set("False");
    assert!(fill_enabled(&overrides));
    overrides.fill = set("");
    assert!(fill_enabled(&overrides));
}

#[test]
fn the_session_is_sized_by_the_buffer() {
    let overrides = Overrides::default();
    assert_eq!(4_800 * 1_018, surb_buffer_bytes(&overrides, 1_018));
    assert_eq!(1_200 * 8 * 400, max_surb_upstream_bits(400));
    let balancer = surb_balancer(&overrides);
    assert_eq!(4_800, balancer.target_surb_buffer_size);
    assert_eq!(1_200, balancer.max_surbs_per_sec);
}

#[test]
fn the_two_halves_of_a_run_agree() {
    let overrides = Overrides::default();
    let profile = install_profile(&overrides);
    assert_eq!(cluster_pix_yaml(&overrides), profile.yaml);
    assert_eq!(entry_dimensions(), profile.dimensions);
    assert_eq!(1024, profile.dimensions.num_ssa_parts);
    assert_eq!(64, profile.dimensions.ssa_part_size);
    assert_eq!(Some(16), profile.dimensions.additional_shares);
    assert_eq!(4_800, profile.surb_buffer);
    assert_eq!(2_048, profile.max_served_without_progress);
    assert!(profile.fill);
}

#[test]
fn the_entry_can_pay_for_its_cycles() {
    assert_eq!(85_032_960, per_cycle());
    let config = entry_config(3_600);
    assert_eq!(1, config.price_per_byte);
    assert_eq!(2 * 85_032_960, config.max_ssa_allocation);
    assert_eq!(12 * 85_032_960, config.max_spend_per_window);
    assert_eq!(3_600, config.spend_window_secs);
    assert_eq!(40, config.max_deposit_tracking_secs);
}

#[test]
fn the_profile_is_one_the_exit_accepts() {
    assert!(CYCLE_PACKETS >= 3 * MAX_DEPOSIT_WAIT_SECS * TARGET_PACKET_RATE);
    assert!(CYCLE_PACKETS >= 2 * DEFAULT_SURB_BUFFER);
    assert!(MAX_RECOVERY_SECS >= QUOTA_RANGE_MAX / PACKET_PAYLOAD_SIZE / 180);
    assert!((QUOTA_RANGE_MIN..=QUOTA_RANGE_MAX).contains(&QUOTA_PER_SSA));
}

#[test]
fn the_packet_rate_cancels() {
    assert_eq!(DEFAULT_SURB_BUFFER, SURB_BUFFER_SECS * TARGET_PACKET_RATE);
    for rate in [1u64, TARGET_PACKET_RATE, 1_204] {
        let mut overrides = Overrides::default();
        overrides.surb_buffer = Some((SURB_BUFFER_SECS * rate).to_string());
        let cycle = 306 * rate;
        assert_eq!(surb_buffer_target(&overrides) * 306, SURB_BUFFER_SECS * cycle);
    }
}
