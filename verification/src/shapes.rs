//! The PIX geometry and session sizing the traffic-shape scenarios run at, and the arithmetic that
//! makes it a *profile* rather than a pile of numbers.
//!
//! What governs PIX is ratios, not rates. A cycle is `E = parts x (threshold + surplus)` packets
//! and the client's SURB buffer is sized at `16 x R`, so
//!
//! ```text
//! buffer / E  =  16 x R / (cycle_seconds x R)  =  16 / cycle_seconds
//! ```
//!
//! — the packet rate cancels. A buffer that is a realistic fraction of a cycle therefore depends on
//! the *cycle length* and nothing else, and a five-minute cycle reproduces the deployed ratio at
//! any rate a local cluster can sustain.
//!
//! # Overrides
//!
//! Every knob a sweep moves is read from the environment at run time so a grid search needs no
//! recompile — see [`Overrides`], [`surb_buffer_target`], [`max_served_without_progress`] and
//! [`fill_enabled`].
use vstd::prelude::*;
use vstd::string::*;

use crate::decimal::{self, parse_u64, push_decimal, push_fixed};
use crate::text::{chars_of, is_text};

verus! {

broadcast use vstd::string::group_string_axioms;

// ── Geometry ─────────────────────────────────────────────────────────────────

/// Polynomials per SSA.
///
/// A multiple of 256, the share emission window: the generator walks polynomials in blocks of that
/// size, so a count that is not a whole number of blocks narrows the last window and makes the
/// emission order less uniform than the one production sees.
pub const PIX_POLYS: usize = 1024;

/// Shares needed to reconstruct one polynomial — the deployed threshold, unchanged.
pub const PIX_SHARES: usize = 64;

/// Shares emitted beyond the threshold, per polynomial.
///
/// A quarter of the threshold: a 20 % loss tolerance. Stated explicitly because the quota, the free
/// credit and the deposit all scale with it.
pub const PIX_ADDITIONAL_SHARES: usize = 16;

/// `E` — every share one cycle emits, and therefore every packet it takes to complete one.
///
/// Both the length of a cycle in packets and its price: a polynomial leaves the generator only once
/// it has emitted threshold *plus* surplus, whether or not anything was lost, so all of them are
/// delivered and all of them are billed.
#[verifier::nonlinear]
pub const CYCLE_PACKETS: u64 = (PIX_POLYS * (PIX_SHARES + PIX_ADDITIONAL_SHARES)) as u64;

/// Payload bytes of one packet.
pub const PACKET_PAYLOAD_SIZE: u64 = 1038;

/// Bytes one cycle costs the Entry — the per-SSA quota the Exit prices its deposit against.
#[verifier::nonlinear]
pub const QUOTA_PER_SSA: u64 = CYCLE_PACKETS * PACKET_PAYLOAD_SIZE;

// ── Rate and the cycle it implies ────────────────────────────────────────────

/// Return packets per second the shapes are sized against (~2.5 Mbps).
///
/// The subject is a *shape* rather than a throughput ceiling: a rate that saturates the runner
/// turns every scenario into a measurement of the runner.
pub const TARGET_PACKET_RATE: u64 = 300;

/// Nominal seconds per cycle, `E / R`.
///
/// The achieved figure is 2-3x this — the Exit's egress is shaped by its SURB buffer, which will
/// not drain faster than the buffer represents a few seconds of replies. Deadlines are sized
/// against the achieved figure, thresholds against the nominal one, and the two are never mixed.
pub const NOMINAL_CYCLE_SECS: u64 = CYCLE_PACKETS / TARGET_PACKET_RATE;

// ── Exit-side deadlines ──────────────────────────────────────────────────────

/// Exit's deadline for the SSA commitment to arrive, in seconds.
pub const MAX_SSA_DELIVERY_SECS: u64 = 20;

/// Exit's deadline for the deposit to land, in seconds.
///
/// A cycle has to comfortably outlast a deposit round trip or the Exit kills Sessions that were
/// about to pay it. The local chain settles far faster than the ~6 s a public one takes; this
/// leaves room for the Entry to notice, submit, and the observer to see it.
pub const MAX_DEPOSIT_WAIT_SECS: u64 = 30;

/// Absolute per-cycle recovery deadline, and the idle tariff, in seconds.
///
/// * **Above** `quota_range_max / ASSUMED_SESSION_PACKET_RATE`, which the Exit enforces at load.
/// * **Small enough to wait out.** A Session with no application traffic completes its cycle on
///   Exit fill at three quarters of this, so it is what an idle scenario spends.
///
/// Twelve minutes clears the floor with margin and puts the idle aim point at nine.
pub const MAX_RECOVERY_SECS: u64 = 720;

/// Per cent of [`MAX_RECOVERY_SECS`] at which Exit fill aims to have the cycle finished.
pub const FILL_FINISH_PERCENT: u64 = 75;

/// Per cent of the packets of a cycle that fill plans for, with the loss it allows for.
pub const FILL_PLANNED_PERCENT: u64 = 105;

/// Ceiling on the Exit's self-generated fill traffic, packets/s.
///
/// An idle cycle here needs 160 packets/s at most, and a cycle of [`QUOTA_RANGE_MAX`] 188.
pub const FILL_MAX_RATE: u32 = 250;

/// The slowest Session the Exit allows for when it checks its deadlines, packets/s: 1.5 Mbps,
/// deliberately the loosest useful bound, since a slower Session is the one needing the longest
/// deadline.
pub const ASSUMED_SESSION_PACKET_RATE: u64 = 180;

// ── Admission window ─────────────────────────────────────────────────────────

/// Lower bound of the quota window the Exit accepts.
pub const QUOTA_RANGE_MIN: u64 = 60_000_000;

/// Upper bound of the quota window the Exit accepts.
///
/// Left clear of [`QUOTA_PER_SSA`] so a sweep moving the geometry a little does not also have to
/// move the window — the Exit refuses a Session whose offered quota falls outside it.
pub const QUOTA_RANGE_MAX: u64 = 100_000_000;

// ── Session sizing (Entry side) ──────────────────────────────────────────────

/// Seconds of replies, over both streams, that the SURB buffer holds.
pub const SURB_BUFFER_SECS: u64 = 16;

/// SURBs the Entry keeps buffered at the Exit, before any override.
///
/// `16 x R`: eight seconds of runway over both streams, since one share rides on each reply.
///
/// **Depth is latency, not bandwidth.** A share is bound to its SURB when the SURB is minted, so a
/// deeper buffer lengthens the pipeline between a share being generated and delivered rather than
/// speeding anything up — and a buffer deeper than a cycle parks a run of *share-less* SURBs at the
/// head of the Exit's FIFO that no rate of fill can get past.
#[verifier::nonlinear]
pub const DEFAULT_SURB_BUFFER: u64 = SURB_BUFFER_SECS * TARGET_PACKET_RATE;

/// Ceiling on SURB production, per second.
///
/// `2 x R` with headroom: one SURB is consumed per return packet, so anything below `R` starves the
/// Exit no matter how deep the buffer is.
pub const MAX_SURBS_PER_SEC: u64 = 4 * TARGET_PACKET_RATE;

/// Shares a recovered cycle's FIFO tail is credited for before the egress gate stops counting it as
/// progress — `parts x surplus`, the surplus the cycle was actually paid for.
#[verifier::nonlinear]
pub const FREE_CREDIT: u64 = (PIX_POLYS * PIX_ADDITIONAL_SHARES) as u64;

/// Packets the Exit serves without a share coming back, where the free credit covers the queue.
pub const DEFAULT_MAX_SERVED: u64 = 2048;

// ── Price ────────────────────────────────────────────────────────────────────

/// Billionths of a wxHOPR per byte of quota, on both sides: what the Exit requires and the Entry
/// pays.
///
/// Well below the deployed price, because the cluster funds each node's Safe from a fixed pot and a
/// run here has to afford [`BUDGETED_CYCLES`] cycles of an 85 MB quota out of it. Nothing in the
/// protocol reads the absolute figure — it is the *product* with the quota that both sides check.
pub const PRICE_PER_BYTE_NANOS: u64 = 1;

/// Cycles a scenario's budget covers.
///
/// Well above what any shape completes, so the budget never binds: a run that ends because the
/// Entry could not pay has measured its own budget rather than the shape.
pub const BUDGETED_CYCLES: u64 = 12;

/// Deposits that the ceiling on one deposit allows for, so a single cycle can never be refused for
/// being marginally over.
pub const ALLOCATED_CYCLES: u64 = 2;

/// Seconds the Entry tracks a deposit for.
///
/// Under the Exit's deposit and delivery deadlines together, or only the single immediate balance
/// check happens before the Exit gives up.
pub const MAX_DEPOSIT_TRACKING_SECS: u64 = 40;

// ── Laws ─────────────────────────────────────────────────────────────────────

/// The relations between the constants that make them a profile: a cycle outlasts three deposit
/// round trips, the SURB buffer is a small pipeline in front of it, the recovery deadline clears a
/// cycle at the widest accepted quota, the offered quota lands inside the window, and the Entry
/// stops tracking a deposit before the Exit gives up on it.
pub proof fn law_the_profile_holds_together()
    ensures
        CYCLE_PACKETS >= 3 * MAX_DEPOSIT_WAIT_SECS * TARGET_PACKET_RATE,
        CYCLE_PACKETS >= 2 * DEFAULT_SURB_BUFFER,
        MAX_RECOVERY_SECS >= QUOTA_RANGE_MAX / PACKET_PAYLOAD_SIZE / ASSUMED_SESSION_PACKET_RATE,
        QUOTA_RANGE_MIN <= QUOTA_PER_SSA <= QUOTA_RANGE_MAX,
        MAX_DEPOSIT_TRACKING_SECS < MAX_DEPOSIT_WAIT_SECS + MAX_SSA_DELIVERY_SECS,
        FREE_CREDIT > DEFAULT_SURB_BUFFER,
{
}

/// Packets a second that fill needs to finish a cycle by its aim point, are no more than the
/// ceiling: of a cycle offered here, and of any cycle the Exit admits.
pub proof fn law_the_fill_ceiling_clears_an_idle_cycle(quota: u64)
    requires
        quota <= QUOTA_RANGE_MAX,
    ensures
        CYCLE_PACKETS * FILL_PLANNED_PERCENT <= FILL_MAX_RATE * (MAX_RECOVERY_SECS
            * FILL_FINISH_PERCENT),
        (quota / PACKET_PAYLOAD_SIZE) * FILL_PLANNED_PERCENT <= FILL_MAX_RATE * (MAX_RECOVERY_SECS
            * FILL_FINISH_PERCENT),
{
}

/// The packet rate cancels: at any rate, the buffer is to a cycle what its seconds are to the
/// cycle's.
pub proof fn law_the_rate_cancels(rate: nat, cycle_secs: nat)
    ensures
        (SURB_BUFFER_SECS * rate) * cycle_secs == SURB_BUFFER_SECS * (cycle_secs * rate),
{
    assert((SURB_BUFFER_SECS * rate) * cycle_secs == SURB_BUFFER_SECS * (cycle_secs * rate))
        by (nonlinear_arith);
}

/// However deep the buffer, what the Exit serves without progress covers what of the queue is not
/// credited, so the egress gate does not block part-way through the drain. Where the buffer outgrew
/// the credit, there is a second of replies of slack.
pub proof fn law_the_served_limit_covers_the_drain(target: u64)
    ensures
        served_for(target) + FREE_CREDIT >= target,
        target > FREE_CREDIT ==> served_for(target) + FREE_CREDIT >= target + TARGET_PACKET_RATE,
{
}

/// A buffer that outgrew the credit raises the limit above the default, and a deeper one never
/// lowers it.
pub proof fn law_a_deeper_buffer_raises_the_served_limit(shallow: u64, deep: u64)
    requires
        shallow <= deep,
    ensures
        served_for(shallow) <= served_for(deep),
        deep > FREE_CREDIT <==> served_for(deep) > DEFAULT_MAX_SERVED,
{
}

/// The limit by its numbers: 2048 up to the credit of 16384, and beyond it the uncredited rest with
/// a second of replies, or just above 2048 where that is less.
pub proof fn law_the_served_limit_by_its_numbers(target: u64)
    ensures
        target <= 16_384 ==> served_for(target) == 2_048,
        16_384 < target <= 18_132 ==> served_for(target) == 2_049,
        target > 18_132 ==> served_for(target) == target - 16_384 + 300,
{
}

/// A knob that holds a whole number is that number, whatever the others hold; one that is not set,
/// or that holds something else, is the default. Fill is on unless its knob turns it off.
pub proof fn law_knobs_read_back(overrides: Overrides, n: u64)
    ensures
        overrides.surb_buffer matches Some(text) && text@ == decimal::decimal(n as nat)
            ==> overrides.buffer() == n,
        overrides.max_served matches Some(text) && text@ == decimal::decimal(n as nat)
            ==> overrides.served() == n,
        overrides.surb_buffer matches Some(text) && decimal::parsed_u64(text@) == Some(n)
            ==> overrides.buffer() == n,
        overrides.max_served matches Some(text) && decimal::parsed_u64(text@) == Some(n)
            ==> overrides.served() == n,
        overrides.surb_buffer is None ==> overrides.buffer() == 4_800,
        overrides.surb_buffer matches Some(text) && decimal::parsed_u64(text@) is None
            ==> overrides.buffer() == 4_800,
        overrides.max_served matches Some(text) && decimal::parsed_u64(text@) is None
            ==> overrides.served() == served_for(overrides.buffer()),
        overrides.max_served is None ==> overrides.served() + FREE_CREDIT >= overrides.buffer(),
        overrides.max_served is None && overrides.buffer() > FREE_CREDIT ==> overrides.served()
            + FREE_CREDIT >= overrides.buffer() + TARGET_PACKET_RATE,
        overrides.max_served is None && overrides.buffer() <= FREE_CREDIT ==> overrides.served()
            == 2_048,
        overrides.fills() <==> !(overrides.fill matches Some(text) && (text@ == "0"@ || text@
            == "false"@)),
{
    decimal::law_decimal_reads_back(n);
}

/// A piece of text behind another.
proof fn lemma_piece(before: Seq<char>, name: Seq<char>, value: Seq<char>)
    ensures
        before + name + value == before + (name + value),
{
    assert(before + name + value =~= before + (name + value));
}

proof fn lemma_numbers_as_written()
    ensures
        decimal::decimal(PIX_POLYS as nat) == "1024"@,
        decimal::decimal(PIX_SHARES as nat) == "64"@,
        decimal::decimal(PIX_ADDITIONAL_SHARES as nat) == "16"@,
        decimal::decimal(QUOTA_RANGE_MIN as nat) == "60000000"@,
        decimal::decimal(QUOTA_RANGE_MAX as nat) == "100000000"@,
        decimal::decimal(MAX_SSA_DELIVERY_SECS as nat) == "20"@,
        decimal::decimal(MAX_DEPOSIT_WAIT_SECS as nat) == "30"@,
        decimal::decimal(MAX_RECOVERY_SECS as nat) == "720"@,
        decimal::decimal(FILL_MAX_RATE as nat) == "250"@,
{
    reveal_with_fuel(decimal::decimal, 10);
    reveal_strlit("1024");
    assert(decimal::decimal(PIX_POLYS as nat) =~= "1024"@);
    reveal_strlit("64");
    assert(decimal::decimal(PIX_SHARES as nat) =~= "64"@);
    reveal_strlit("16");
    assert(decimal::decimal(PIX_ADDITIONAL_SHARES as nat) =~= "16"@);
    reveal_strlit("60000000");
    assert(decimal::decimal(QUOTA_RANGE_MIN as nat) =~= "60000000"@);
    reveal_strlit("100000000");
    assert(decimal::decimal(QUOTA_RANGE_MAX as nat) =~= "100000000"@);
    reveal_strlit("20");
    assert(decimal::decimal(MAX_SSA_DELIVERY_SECS as nat) =~= "20"@);
    reveal_strlit("30");
    assert(decimal::decimal(MAX_DEPOSIT_WAIT_SECS as nat) =~= "30"@);
    reveal_strlit("720");
    assert(decimal::decimal(MAX_RECOVERY_SECS as nat) =~= "720"@);
    reveal_strlit("250");
    assert(decimal::decimal(FILL_MAX_RATE as nat) =~= "250"@);
}

proof fn lemma_amounts_as_written()
    ensures
        decimal::fixed((PRICE_PER_BYTE_NANOS * 10) as nat, 10) == "0.0000000010"@,
        amount((per_cycle_nanos() * ALLOCATED_CYCLES) as nat) == "0.1701"@,
        amount((per_cycle_nanos() * BUDGETED_CYCLES) as nat) == "1.0204"@,
{
    reveal_with_fuel(decimal::decimal, 3);
    reveal_with_fuel(decimal::padded, 11);
    reveal_with_fuel(crate::numeral::tens, 11);
    assert(per_cycle_nanos() == 85_032_960);
    assert(ten_thousandths(170_065_920) == 1_701);
    assert(ten_thousandths(1_020_395_520) == 10_204);
    assert(crate::numeral::tens(4) == 10_000);
    assert(crate::numeral::tens(10) == 10_000_000_000);
    assert(10nat / 10_000_000_000nat == 0);
    assert(decimal::padded(0, 8) =~= seq!['0', '0', '0', '0', '0', '0', '0', '0']);
    assert(decimal::padded(1, 9) =~= seq!['0', '0', '0', '0', '0', '0', '0', '0', '1']);
    assert(decimal::padded(10, 10) =~= seq!['0', '0', '0', '0', '0', '0', '0', '0', '1', '0']);
    assert(PRICE_PER_BYTE_NANOS * 10 == 10);
    reveal_strlit("0.0000000010");
    assert(decimal::fixed((PRICE_PER_BYTE_NANOS * 10) as nat, 10) =~= "0.0000000010"@);
    reveal_strlit("0.1701");
    assert(amount((per_cycle_nanos() * ALLOCATED_CYCLES) as nat) =~= "0.1701"@);
    reveal_strlit("1.0204");
    assert(amount((per_cycle_nanos() * BUDGETED_CYCLES) as nat) =~= "1.0204"@);
}

/// The YAML as it is written, line by line: the geometry, the window and the deadlines, then the
/// limit, in digits that read back as it, then whether fill is on, then the amounts.
pub proof fn law_the_yaml_as_written(served: u64, fill: bool) -> (digits: Seq<char>)
    ensures
        yaml(served, fill) == "num_ssa_parts: 1024"@
            + "\nssa_part_size: 64"@
            + "\nadditional_shares: 16"@
            + "\nquota_range_min: 60000000"@
            + "\nquota_range_max: 100000000"@
            + "\nmax_ssa_delivery_time: 20"@
            + "s\nmax_deposit_wait: 30"@
            + "s\nmax_recovery_time: 720"@
            + "s\nmax_served_without_progress: "@
            + digits
            + "\nfill_enabled: "@
            + (if fill {
            "true"@
        } else {
            "false"@
        })
            + "\nfill_max_rate: 250"@
            + "\nprice_per_byte: \"0.0000000010"@
            + " wxHOPR\"\nmax_ssa_allocation: \"0.1701"@
            + " wxHOPR\"\nmax_spend_per_window: \"1.0204"@
            + " wxHOPR\"\nsafe_deposit_float: \"1.0204"@
            + " wxHOPR\"\n"@,
        decimal::parsed_u64(digits) == Some(served),
{
    lemma_amounts_as_written();
    lemma_numbers_as_written();
    let digits = decimal::decimal(served as nat);
    decimal::law_decimal_reads_back(served);
    assert("num_ssa_parts: "@ + "1024"@ == "num_ssa_parts: 1024"@) by {
        reveal_strlit("num_ssa_parts: ");
        reveal_strlit("1024");
        reveal_strlit("num_ssa_parts: 1024");
        assert("num_ssa_parts: "@ + "1024"@ =~= "num_ssa_parts: 1024"@);
    }
    let s0 = "num_ssa_parts: 1024"@;
    assert("\nssa_part_size: "@ + "64"@ == "\nssa_part_size: 64"@) by {
        reveal_strlit("\nssa_part_size: ");
        reveal_strlit("64");
        reveal_strlit("\nssa_part_size: 64");
        assert("\nssa_part_size: "@ + "64"@ =~= "\nssa_part_size: 64"@);
    }
    lemma_piece(s0, "\nssa_part_size: "@, "64"@);
    let s1 = s0 + "\nssa_part_size: 64"@;
    assert("\nadditional_shares: "@ + "16"@ == "\nadditional_shares: 16"@) by {
        reveal_strlit("\nadditional_shares: ");
        reveal_strlit("16");
        reveal_strlit("\nadditional_shares: 16");
        assert("\nadditional_shares: "@ + "16"@ =~= "\nadditional_shares: 16"@);
    }
    lemma_piece(s1, "\nadditional_shares: "@, "16"@);
    let s2 = s1 + "\nadditional_shares: 16"@;
    assert("\nquota_range_min: "@ + "60000000"@ == "\nquota_range_min: 60000000"@) by {
        reveal_strlit("\nquota_range_min: ");
        reveal_strlit("60000000");
        reveal_strlit("\nquota_range_min: 60000000");
        assert("\nquota_range_min: "@ + "60000000"@ =~= "\nquota_range_min: 60000000"@);
    }
    lemma_piece(s2, "\nquota_range_min: "@, "60000000"@);
    let s3 = s2 + "\nquota_range_min: 60000000"@;
    assert("\nquota_range_max: "@ + "100000000"@ == "\nquota_range_max: 100000000"@) by {
        reveal_strlit("\nquota_range_max: ");
        reveal_strlit("100000000");
        reveal_strlit("\nquota_range_max: 100000000");
        assert("\nquota_range_max: "@ + "100000000"@ =~= "\nquota_range_max: 100000000"@);
    }
    lemma_piece(s3, "\nquota_range_max: "@, "100000000"@);
    let s4 = s3 + "\nquota_range_max: 100000000"@;
    assert("\nmax_ssa_delivery_time: "@ + "20"@ == "\nmax_ssa_delivery_time: 20"@) by {
        reveal_strlit("\nmax_ssa_delivery_time: ");
        reveal_strlit("20");
        reveal_strlit("\nmax_ssa_delivery_time: 20");
        assert("\nmax_ssa_delivery_time: "@ + "20"@ =~= "\nmax_ssa_delivery_time: 20"@);
    }
    lemma_piece(s4, "\nmax_ssa_delivery_time: "@, "20"@);
    let s5 = s4 + "\nmax_ssa_delivery_time: 20"@;
    assert("s\nmax_deposit_wait: "@ + "30"@ == "s\nmax_deposit_wait: 30"@) by {
        reveal_strlit("s\nmax_deposit_wait: ");
        reveal_strlit("30");
        reveal_strlit("s\nmax_deposit_wait: 30");
        assert("s\nmax_deposit_wait: "@ + "30"@ =~= "s\nmax_deposit_wait: 30"@);
    }
    lemma_piece(s5, "s\nmax_deposit_wait: "@, "30"@);
    let s6 = s5 + "s\nmax_deposit_wait: 30"@;
    assert("s\nmax_recovery_time: "@ + "720"@ == "s\nmax_recovery_time: 720"@) by {
        reveal_strlit("s\nmax_recovery_time: ");
        reveal_strlit("720");
        reveal_strlit("s\nmax_recovery_time: 720");
        assert("s\nmax_recovery_time: "@ + "720"@ =~= "s\nmax_recovery_time: 720"@);
    }
    lemma_piece(s6, "s\nmax_recovery_time: "@, "720"@);
    let s7 = s6 + "s\nmax_recovery_time: 720"@;
    let s8 = s7 + "s\nmax_served_without_progress: "@ + digits + "\nfill_enabled: "@ + (if fill {
        "true"@
    } else {
        "false"@
    });
    assert("\nfill_max_rate: "@ + "250"@ == "\nfill_max_rate: 250"@) by {
        reveal_strlit("\nfill_max_rate: ");
        reveal_strlit("250");
        reveal_strlit("\nfill_max_rate: 250");
        assert("\nfill_max_rate: "@ + "250"@ =~= "\nfill_max_rate: 250"@);
    }
    lemma_piece(s8, "\nfill_max_rate: "@, "250"@);
    let s9 = s8 + "\nfill_max_rate: 250"@;
    assert("\nprice_per_byte: \""@ + "0.0000000010"@ == "\nprice_per_byte: \"0.0000000010"@) by {
        reveal_strlit("\nprice_per_byte: \"");
        reveal_strlit("0.0000000010");
        reveal_strlit("\nprice_per_byte: \"0.0000000010");
        assert("\nprice_per_byte: \""@ + "0.0000000010"@ =~= "\nprice_per_byte: \"0.0000000010"@);
    }
    lemma_piece(s9, "\nprice_per_byte: \""@, "0.0000000010"@);
    let s10 = s9 + "\nprice_per_byte: \"0.0000000010"@;
    assert(" wxHOPR\"\nmax_ssa_allocation: \""@ + "0.1701"@ == " wxHOPR\"\nmax_ssa_allocation: \"0.1701"@) by {
        reveal_strlit(" wxHOPR\"\nmax_ssa_allocation: \"");
        reveal_strlit("0.1701");
        reveal_strlit(" wxHOPR\"\nmax_ssa_allocation: \"0.1701");
        assert(" wxHOPR\"\nmax_ssa_allocation: \""@ + "0.1701"@ =~= " wxHOPR\"\nmax_ssa_allocation: \"0.1701"@);
    }
    lemma_piece(s10, " wxHOPR\"\nmax_ssa_allocation: \""@, "0.1701"@);
    let s11 = s10 + " wxHOPR\"\nmax_ssa_allocation: \"0.1701"@;
    assert(" wxHOPR\"\nmax_spend_per_window: \""@ + "1.0204"@ == " wxHOPR\"\nmax_spend_per_window: \"1.0204"@) by {
        reveal_strlit(" wxHOPR\"\nmax_spend_per_window: \"");
        reveal_strlit("1.0204");
        reveal_strlit(" wxHOPR\"\nmax_spend_per_window: \"1.0204");
        assert(" wxHOPR\"\nmax_spend_per_window: \""@ + "1.0204"@ =~= " wxHOPR\"\nmax_spend_per_window: \"1.0204"@);
    }
    lemma_piece(s11, " wxHOPR\"\nmax_spend_per_window: \""@, "1.0204"@);
    let s12 = s11 + " wxHOPR\"\nmax_spend_per_window: \"1.0204"@;
    assert(" wxHOPR\"\nsafe_deposit_float: \""@ + "1.0204"@ == " wxHOPR\"\nsafe_deposit_float: \"1.0204"@) by {
        reveal_strlit(" wxHOPR\"\nsafe_deposit_float: \"");
        reveal_strlit("1.0204");
        reveal_strlit(" wxHOPR\"\nsafe_deposit_float: \"1.0204");
        assert(" wxHOPR\"\nsafe_deposit_float: \""@ + "1.0204"@ =~= " wxHOPR\"\nsafe_deposit_float: \"1.0204"@);
    }
    lemma_piece(s12, " wxHOPR\"\nsafe_deposit_float: \""@, "1.0204"@);
    let s13 = s12 + " wxHOPR\"\nsafe_deposit_float: \"1.0204"@;
    assert(yaml(served, fill) == s13 + " wxHOPR\"\n"@);
    digits
}

/// Digits end where something else follows, so what holds the same text holds the same digits.
proof fn lemma_digits_end(
    head: Seq<char>,
    p: Seq<char>,
    q: Seq<char>,
    r: Seq<char>,
    s: Seq<char>,
)
    requires
        decimal::is_number(p),
        decimal::is_number(q),
        r.len() > 0 && !decimal::is_digit(r[0]),
        s.len() > 0 && !decimal::is_digit(s[0]),
        head + p + r == head + q + s,
    ensures
        p == q,
        r == s,
{
    let (x, y) = (head + p + r, head + q + s);
    let n = head.len() as int;
    assert(x[n + p.len()] == r[0]);
    assert(y[n + q.len()] == s[0]);
    if p.len() < q.len() {
        assert(y[n + p.len()] == q[p.len() as int]);
    }
    if q.len() < p.len() {
        assert(x[n + q.len()] == p[q.len() as int]);
    }
    assert(p =~= x.subrange(n, n + p.len()));
    assert(q =~= y.subrange(n, n + q.len()));
    assert(r =~= x.skip(n + p.len()));
    assert(s =~= y.skip(n + q.len()));
}

/// Runs with different limits, or of which only one fills, are given different YAML.
pub proof fn law_different_knobs_differ_in_the_yaml(a: u64, b: u64, fill_a: bool, fill_b: bool)
    ensures
        yaml(a, fill_a) == yaml(b, fill_b) <==> a == b && fill_a == fill_b,
{
    if yaml(a, fill_a) == yaml(b, fill_b) {
        lemma_yaml_head(a, fill_a);
        lemma_yaml_head(b, fill_b);
        lemma_yaml_rest(fill_a);
        lemma_yaml_rest(fill_b);
        decimal::law_decimal_spells(a as nat);
        decimal::law_decimal_spells(b as nat);
        lemma_digits_end(
            yaml_head(),
            decimal::decimal(a as nat),
            decimal::decimal(b as nat),
            yaml_rest(fill_a),
            yaml_rest(fill_b),
        );
        decimal::law_decimal_reads_back(a);
        decimal::law_decimal_reads_back(b);
    }
}

proof fn lemma_yaml_rest(fill: bool)
    ensures
        yaml_rest(fill).len() > 15,
        yaml_rest(fill)[0] == '\n',
        yaml_rest(fill)[15] == (if fill {
            't'
        } else {
            'f'
        }),
{
    let flag = if fill {
        "true"@
    } else {
        "false"@
    };
    reveal_strlit("\nfill_enabled: ");
    reveal_strlit("true");
    reveal_strlit("false");
    assert(yaml_rest(fill) == "\nfill_enabled: "@ + flag + yaml_tail());
}

/// The YAML ahead of the limit.
#[verifier::opaque]
spec fn yaml_head() -> Seq<char> {
    "num_ssa_parts: "@ + decimal::decimal(PIX_POLYS as nat) + "\nssa_part_size: "@
        + decimal::decimal(PIX_SHARES as nat) + "\nadditional_shares: "@ + decimal::decimal(
        PIX_ADDITIONAL_SHARES as nat,
    ) + "\nquota_range_min: "@ + decimal::decimal(QUOTA_RANGE_MIN as nat) + "\nquota_range_max: "@
        + decimal::decimal(QUOTA_RANGE_MAX as nat) + "\nmax_ssa_delivery_time: "@
        + decimal::decimal(MAX_SSA_DELIVERY_SECS as nat) + "s\nmax_deposit_wait: "@
        + decimal::decimal(MAX_DEPOSIT_WAIT_SECS as nat) + "s\nmax_recovery_time: "@
        + decimal::decimal(MAX_RECOVERY_SECS as nat) + "s\nmax_served_without_progress: "@
}

/// The YAML behind whether fill is on.
#[verifier::opaque]
spec fn yaml_tail() -> Seq<char> {
    "\nfill_max_rate: "@ + decimal::decimal(FILL_MAX_RATE as nat) + "\nprice_per_byte: \""@
        + decimal::fixed((PRICE_PER_BYTE_NANOS * 10) as nat, 10)
        + " wxHOPR\"\nmax_ssa_allocation: \""@ + amount((per_cycle_nanos() * ALLOCATED_CYCLES) as nat)
        + " wxHOPR\"\nmax_spend_per_window: \""@ + amount(
        (per_cycle_nanos() * BUDGETED_CYCLES) as nat,
    ) + " wxHOPR\"\nsafe_deposit_float: \""@ + amount((per_cycle_nanos() * BUDGETED_CYCLES) as nat)
        + " wxHOPR\"\n"@
}

/// The YAML behind the limit, from whether fill is on.
spec fn yaml_rest(fill: bool) -> Seq<char> {
    "\nfill_enabled: "@ + (if fill {
        "true"@
    } else {
        "false"@
    }) + yaml_tail()
}

proof fn lemma_yaml_head(served: u64, fill: bool)
    ensures
        yaml(served, fill) == yaml_head() + decimal::decimal(served as nat) + yaml_rest(fill),
{
    reveal(yaml_tail);
    reveal(yaml_head);
    assert(yaml(served, fill) =~= yaml_head() + decimal::decimal(served as nat) + yaml_rest(fill));
}

// ── Runtime overrides (the sweep's knobs) ────────────────────────────────────

/// What the environment holds of the sweep's knobs.
#[derive(Debug, PartialEq, Eq)]
pub struct Overrides {
    /// `HOPRD_PIX_SURB_BUFFER`.
    pub surb_buffer: Option<String>,
    /// `HOPRD_PIX_MAX_SERVED`.
    pub max_served: Option<String>,
    /// `HOPRD_PIX_FILL`.
    pub fill: Option<String>,
}

impl Default for Overrides {
    /// Nothing overridden.
    fn default() -> (overrides: Overrides)
        ensures
            overrides.surb_buffer is None,
            overrides.max_served is None,
            overrides.fill is None,
    {
        Overrides { surb_buffer: None, max_served: None, fill: None }
    }
}

/// The whole number that a variable holds, or `fallback` where it holds none.
pub open spec fn number_or(raw: Option<String>, fallback: u64) -> u64 {
    match raw {
        Some(text) => match decimal::parsed_u64(text@) {
            Some(n) => n,
            None => fallback,
        },
        None => fallback,
    }
}

/// Packets served without progress that a buffer of `target` SURBs needs: the default where the
/// credit covers the buffer, and more than it where the credit does not.
pub open spec fn served_for(target: u64) -> u64 {
    if target <= FREE_CREDIT {
        DEFAULT_MAX_SERVED
    } else if target - FREE_CREDIT + TARGET_PACKET_RATE > DEFAULT_MAX_SERVED {
        (target - FREE_CREDIT + TARGET_PACKET_RATE) as u64
    } else {
        (DEFAULT_MAX_SERVED + 1) as u64
    }
}

impl Overrides {
    /// SURBs the Entry buffers at the Exit.
    pub open spec fn buffer(self) -> u64 {
        number_or(self.surb_buffer, DEFAULT_SURB_BUFFER)
    }

    /// Packets the Exit serves without a share coming back.
    pub open spec fn served(self) -> u64 {
        number_or(self.max_served, served_for(self.buffer()))
    }

    /// Whether fill is on.
    pub open spec fn fills(self) -> bool {
        match self.fill {
            Some(text) => text@ != "0"@ && text@ != "false"@,
            None => true,
        }
    }
}

/// The whole number that a variable holds, or `fallback` where it holds none.
fn env_u64(raw: &Option<String>, fallback: u64) -> (n: u64)
    ensures
        n == number_or(*raw, fallback),
{
    if let Some(text) = raw {
        if let Some(n) = parse_u64(text.as_str()) {
            return n;
        }
    }
    fallback
}

/// SURBs the Entry buffers at the Exit, honouring `HOPRD_PIX_SURB_BUFFER`.
///
/// The first of the three knobs the sweep moves, and the one with a measured failure on both sides:
/// too shallow starves the Exit mid-cycle, too deep sediments share-less SURBs ahead of the cycle's
/// own. See [`DEFAULT_SURB_BUFFER`].
pub fn surb_buffer_target(overrides: &Overrides) -> (surbs: u64)
    ensures
        surbs == overrides.buffer(),
{
    env_u64(&overrides.surb_buffer, DEFAULT_SURB_BUFFER)
}

/// Packets the Exit serves without a share coming back before its egress gate blocks, honouring
/// `HOPRD_PIX_MAX_SERVED`.
///
/// When a cycle recovers, the SURBs still queued carry *its* shares, and the drain is credited as
/// liveness up to [`FREE_CREDIT`] — 16 384 here against a queue of [`surb_buffer_target`]. A
/// profile whose buffer outgrew the credit has to raise this, because the egress gate blocking
/// part-way through the drain stops the very SURB spending that was draining it.
pub fn max_served_without_progress(overrides: &Overrides) -> (packets: u64)
    ensures
        packets == overrides.served(),
{
    let target = surb_buffer_target(overrides);
    let default: u64 = if target > FREE_CREDIT {
        // Cover the uncreditable remainder outright, plus a second of replies of slack, and never
        // less than a buffer that the credit covers is given.
        let cover: u64 = target - FREE_CREDIT + TARGET_PACKET_RATE;
        if cover > DEFAULT_MAX_SERVED {
            cover
        } else {
            DEFAULT_MAX_SERVED + 1
        }
    } else {
        DEFAULT_MAX_SERVED
    };
    env_u64(&overrides.max_served, default)
}

/// Whether the Exit fills a cycle the application has left unfinished, honouring `HOPRD_PIX_FILL`
/// (`0` / `false` to disable).
///
/// On by default. Turning it off is how a run measures what fill contributes: without it, a Session
/// whose return traffic averages below `E / max_recovery_time` strands its deposit rather than
/// completing.
pub fn fill_enabled(overrides: &Overrides) -> (yes: bool)
    ensures
        yes == overrides.fills(),
{
    match &overrides.fill {
        Some(text) => !same(text.as_str(), "0") && !same(text.as_str(), "false"),
        None => true,
    }
}

/// Whether two texts are the same.
fn same(a: &str, b: &str) -> (yes: bool)
    ensures
        yes == (a@ == b@),
{
    let chars = chars_of(a);
    is_text(chars.as_slice(), b)
}

// ── Rendering ────────────────────────────────────────────────────────────────

/// An amount in ten-thousandths of a wxHOPR, the nearest.
pub open spec fn ten_thousandths(nanos: nat) -> nat {
    (nanos + 50_000) / 100_000
}

/// An amount of wxHOPR with four decimals.
pub open spec fn amount(nanos: nat) -> Seq<char> {
    decimal::fixed(ten_thousandths(nanos), 4)
}

/// The profile as YAML.
pub open spec fn yaml(served: u64, fill: bool) -> Seq<char> {
    "num_ssa_parts: "@ + decimal::decimal(PIX_POLYS as nat) + "\nssa_part_size: "@
        + decimal::decimal(PIX_SHARES as nat) + "\nadditional_shares: "@ + decimal::decimal(
        PIX_ADDITIONAL_SHARES as nat,
    ) + "\nquota_range_min: "@ + decimal::decimal(QUOTA_RANGE_MIN as nat) + "\nquota_range_max: "@
        + decimal::decimal(QUOTA_RANGE_MAX as nat) + "\nmax_ssa_delivery_time: "@
        + decimal::decimal(MAX_SSA_DELIVERY_SECS as nat) + "s\nmax_deposit_wait: "@
        + decimal::decimal(MAX_DEPOSIT_WAIT_SECS as nat) + "s\nmax_recovery_time: "@
        + decimal::decimal(MAX_RECOVERY_SECS as nat) + "s\nmax_served_without_progress: "@
        + decimal::decimal(served as nat) + "\nfill_enabled: "@ + (if fill {
        "true"@
    } else {
        "false"@
    }) + "\nfill_max_rate: "@ + decimal::decimal(FILL_MAX_RATE as nat) + "\nprice_per_byte: \""@
        + decimal::fixed((PRICE_PER_BYTE_NANOS * 10) as nat, 10)
        + " wxHOPR\"\nmax_ssa_allocation: \""@ + amount((per_cycle_nanos() * ALLOCATED_CYCLES) as nat)
        + " wxHOPR\"\nmax_spend_per_window: \""@ + amount(
        (per_cycle_nanos() * BUDGETED_CYCLES) as nat,
    ) + " wxHOPR\"\nsafe_deposit_float: \""@ + amount((per_cycle_nanos() * BUDGETED_CYCLES) as nat)
        + " wxHOPR\"\n"@
}

/// Billionths of a wxHOPR one completed cycle costs the Entry.
pub open spec fn per_cycle_nanos() -> int {
    PRICE_PER_BYTE_NANOS * QUOTA_PER_SSA
}

/// Append an amount of wxHOPR with four decimals.
fn push_amount(out: &mut String, nanos: u64)
    requires
        nanos <= u64::MAX - 50_000,
    ensures
        final(out)@ == old(out)@ + amount(nanos as nat),
{
    push_fixed(out, (nanos + 50_000) / 100_000, 4);
}

/// This profile as the YAML that a cluster is given.
///
/// Only the fields this profile has a reason to move are named; everything else stays at the demo
/// default. `price_per_byte` and the two spend ceilings are stated because the deposit scales with
/// the quota: one deposit is `price_per_byte x quota`, so the ceiling and the window are both
/// derived from the price rather than restated — a geometry change moves all three together.
pub fn cluster_pix_yaml(overrides: &Overrides) -> (out: String)
    ensures
        out@ == yaml(overrides.served(), overrides.fills()),
{
    let cost = per_cycle();
    let mut out = String::new();
    out.append("num_ssa_parts: ");
    push_decimal(&mut out, PIX_POLYS as u64);
    out.append("\nssa_part_size: ");
    push_decimal(&mut out, PIX_SHARES as u64);
    out.append("\nadditional_shares: ");
    push_decimal(&mut out, PIX_ADDITIONAL_SHARES as u64);
    out.append("\nquota_range_min: ");
    push_decimal(&mut out, QUOTA_RANGE_MIN);
    out.append("\nquota_range_max: ");
    push_decimal(&mut out, QUOTA_RANGE_MAX);
    out.append("\nmax_ssa_delivery_time: ");
    push_decimal(&mut out, MAX_SSA_DELIVERY_SECS);
    out.append("s\nmax_deposit_wait: ");
    push_decimal(&mut out, MAX_DEPOSIT_WAIT_SECS);
    out.append("s\nmax_recovery_time: ");
    push_decimal(&mut out, MAX_RECOVERY_SECS);
    out.append("s\nmax_served_without_progress: ");
    push_decimal(&mut out, max_served_without_progress(overrides));
    out.append("\nfill_enabled: ");
    out.append(
        if fill_enabled(overrides) {
            "true"
        } else {
            "false"
        },
    );
    out.append("\nfill_max_rate: ");
    push_decimal(&mut out, FILL_MAX_RATE as u64);
    out.append("\nprice_per_byte: \"");
    push_fixed(&mut out, PRICE_PER_BYTE_NANOS * 10, 10);
    out.append(" wxHOPR\"\nmax_ssa_allocation: \"");
    push_amount(&mut out, cost * ALLOCATED_CYCLES);
    out.append(" wxHOPR\"\nmax_spend_per_window: \"");
    push_amount(&mut out, cost * BUDGETED_CYCLES);
    out.append(" wxHOPR\"\nsafe_deposit_float: \"");
    push_amount(&mut out, cost * BUDGETED_CYCLES);
    out.append(" wxHOPR\"\n");
    assert(out@ =~= yaml(overrides.served(), overrides.fills()));
    out
}

/// Bytes one SURB buffer of the requested depth occupies, for the balancer's byte-denominated knob.
pub fn surb_buffer_bytes(overrides: &Overrides, session_mtu: u64) -> (bytes: u64)
    requires
        overrides.buffer() * session_mtu <= u64::MAX,
    ensures
        bytes == overrides.buffer() * session_mtu,
{
    surb_buffer_target(overrides) * session_mtu
}

/// Bits per second of SURB upstream the balancer may use.
pub fn max_surb_upstream_bits(surb_size: u64) -> (bits: u64)
    requires
        MAX_SURBS_PER_SEC * 8 * surb_size <= u64::MAX,
    ensures
        bits == MAX_SURBS_PER_SEC * 8 * surb_size,
        bits == 1_200 * 8 * surb_size,
{
    MAX_SURBS_PER_SEC * 8 * surb_size
}

/// What the profile sets of a SURB balancer.
#[derive(Debug, Clone, Copy, PartialEq, Eq)]
pub struct SurbBalancer {
    pub target_surb_buffer_size: u64,
    pub max_surbs_per_sec: u64,
}

/// This profile's SURB balancer, honouring the sweep's buffer override.
///
/// The decay of the estimate is left as the balancer has it: the Entry walks its own estimate of
/// the Exit's buffer down when nothing is coming back, which is what makes it re-mint during an
/// idle shape instead of believing a buffer that has since been spent.
pub fn surb_balancer(overrides: &Overrides) -> (balancer: SurbBalancer)
    ensures
        balancer.target_surb_buffer_size == overrides.buffer(),
        balancer.max_surbs_per_sec == MAX_SURBS_PER_SEC,
        balancer.max_surbs_per_sec == 1_200,
{
    SurbBalancer {
        target_surb_buffer_size: surb_buffer_target(overrides),
        max_surbs_per_sec: MAX_SURBS_PER_SEC,
    }
}

// ── Entry side ───────────────────────────────────────────────────────────────

/// The dimensions of a generator.
#[derive(Debug, Clone, Copy, PartialEq, Eq)]
pub struct EntryDimensions {
    pub num_ssa_parts: usize,
    pub ssa_part_size: usize,
    pub additional_shares: Option<usize>,
}

impl EntryDimensions {
    /// The quota that the dimensions announce, in bytes.
    pub open spec fn quota(self) -> int {
        self.num_ssa_parts * (self.ssa_part_size + match self.additional_shares {
            Some(surplus) => surplus as int,
            None => 0,
        }) * PACKET_PAYLOAD_SIZE
    }
}

/// This profile as the Entry's own generator dimensions.
///
/// They agree with what [`cluster_pix_yaml`] gives the Exit: the quota that the Entry announces
/// falls inside the window that YAML sets.
pub fn entry_dimensions() -> (dimensions: EntryDimensions)
    ensures
        dimensions.num_ssa_parts == PIX_POLYS,
        dimensions.ssa_part_size == PIX_SHARES,
        dimensions.additional_shares == Some(PIX_ADDITIONAL_SHARES),
        dimensions.quota() == QUOTA_PER_SSA,
        QUOTA_RANGE_MIN <= dimensions.quota() <= QUOTA_RANGE_MAX,
        dimensions.quota() == 1_024 * (64 + 16) * 1_038,
{
    EntryDimensions {
        num_ssa_parts: PIX_POLYS,
        ssa_part_size: PIX_SHARES,
        additional_shares: Some(PIX_ADDITIONAL_SHARES),
    }
}

/// Billionths of a wxHOPR one completed cycle costs the Entry at this profile.
pub fn per_cycle() -> (nanos: u64)
    ensures
        nanos == per_cycle_nanos(),
        nanos == 85_032_960,
{
    PRICE_PER_BYTE_NANOS * QUOTA_PER_SSA
}

/// The Entry's settlement configuration. Amounts are in billionths of a wxHOPR.
#[derive(Debug, Clone, Copy, PartialEq, Eq)]
pub struct EntryConfig {
    pub price_per_byte: u64,
    pub max_ssa_allocation: u64,
    pub max_spend_per_window: u64,
    pub spend_window_secs: u64,
    pub max_deposit_tracking_secs: u64,
}

/// The Entry's settlement configuration for this profile, budgeted at [`BUDGETED_CYCLES`].
pub fn entry_config(spend_window_secs: u64) -> (config: EntryConfig)
    ensures
        config.price_per_byte == PRICE_PER_BYTE_NANOS,
        config.max_ssa_allocation == per_cycle_nanos() * ALLOCATED_CYCLES,
        config.max_ssa_allocation > per_cycle_nanos(),
        config.max_spend_per_window == per_cycle_nanos() * BUDGETED_CYCLES,
        config.spend_window_secs == spend_window_secs,
        config.max_deposit_tracking_secs == MAX_DEPOSIT_TRACKING_SECS,
        config.max_ssa_allocation == 2 * 85_032_960 * config.price_per_byte,
        config.max_spend_per_window == 12 * 85_032_960 * config.price_per_byte,
{
    let cost = per_cycle();
    EntryConfig {
        price_per_byte: PRICE_PER_BYTE_NANOS,
        // A ceiling, not a budget, and one cycle must never be marginally over it.
        max_ssa_allocation: cost * ALLOCATED_CYCLES,
        // Well above what any shape completes, so a run that ends on the budget has gone wrong
        // rather than finished.
        max_spend_per_window: cost * BUDGETED_CYCLES,
        spend_window_secs,
        max_deposit_tracking_secs: MAX_DEPOSIT_TRACKING_SECS,
    }
}

/// Both halves of a run at this profile.
#[derive(Debug, PartialEq, Eq)]
pub struct Profile {
    /// What the cluster is given.
    pub yaml: String,
    /// What the Entry announces.
    pub dimensions: EntryDimensions,
    pub surb_buffer: u64,
    pub max_served_without_progress: u64,
    pub fill: bool,
}

/// Both halves of the run at this profile, to be set before the cluster is brought up.
///
/// The Exit's admission window and the Entry's announced geometry are read by different processes
/// and neither can derive the other, so this is the one call that sets them together.
pub fn install_profile(overrides: &Overrides) -> (profile: Profile)
    ensures
        profile.yaml@ == yaml(overrides.served(), overrides.fills()),
        profile.dimensions.num_ssa_parts == PIX_POLYS,
        profile.dimensions.ssa_part_size == PIX_SHARES,
        profile.dimensions.additional_shares == Some(PIX_ADDITIONAL_SHARES),
        profile.surb_buffer == overrides.buffer(),
        profile.max_served_without_progress == overrides.served(),
        profile.fill == overrides.fills(),
{
    Profile {
        yaml: cluster_pix_yaml(overrides),
        dimensions: entry_dimensions(),
        surb_buffer: surb_buffer_target(overrides),
        max_served_without_progress: max_served_without_progress(overrides),
        fill: fill_enabled(overrides),
    }
}

} // verus!
