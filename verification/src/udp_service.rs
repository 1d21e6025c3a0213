//! A local UDP service the Exit forwards a Session to, for traffic shapes that are not symmetric.
//!
//! The Exit's built-in loopback echoes each byte back, which makes a Session byte-symmetric by
//! construction — and PIX is paid for the **return** direction only, one share per return packet.
//! So the two shapes that bear hardest on it cannot be expressed against a loopback at all:
//!
//! * a **download** is heavy in the direction PIX bills, so its cycles should complete on
//!   application traffic alone;
//! * an **upload** is heavy in the direction PIX does *not* bill, so almost nothing comes back and
//!   the cycle only completes if the Exit fills it — which is the whole of what fill is for.
//!
//! What is here decides what the service does with each datagram and keeps its accounts; whoever
//! owns the socket performs it.
use vstd::prelude::*;

verus! {

/// What the service does with what it receives.
#[derive(Debug, Clone, Copy, PartialEq, Eq)]
pub enum Mode {
    /// Discard everything, reply with nothing.
    ///
    /// The upload shape. The Session's return direction then carries only what the *protocol*
    /// generates — acknowledgements, SURB-level keep-alives and Exit fill — which is precisely the
    /// case a PIX cycle cannot complete on without help.
    Sink,
    /// Reply to the first datagram with a sustained push, ignoring anything further.
    ///
    /// The download shape. `datagram` bytes every `1/rate` of a second until `total_bytes` have
    /// gone out — a rate and a segment size rather than a burst, so the return direction carries a
    /// *stream* the Exit's SURB balancer can pace against rather than one arrival.
    Push { datagram: usize, rate: u64, total_bytes: u64 },
}

/// The byte that a push is made of.
pub const FILLER: u8 = 0xAB;

/// Microseconds in a second.
pub const MICROS_PER_SEC: u64 = 1_000_000;

/// `a + b`, in the accounts, which go round at 2^64.
pub open spec fn wrapped(a: u64, b: nat) -> u64 {
    ((a + b) % 0x1_0000_0000_0000_0000) as u64
}

/// `wrapped`, on the machine.
fn account(a: u64, b: usize) -> (sum: u64)
    ensures
        sum == wrapped(a, b as nat),
{
    a.wrapping_add(b as u64)
}

/// Where a datagram comes from, or goes to.
#[derive(Debug, Clone, Copy, PartialEq, Eq)]
#[allow(inconsistent_fields)]
pub enum Peer {
    V4 { ip: u32, port: u16 },
    V6 { ip: u128, port: u16, flowinfo: u32, scope_id: u32 },
}

// ── A push ───────────────────────────────────────────────────────────────────

/// A push under way.
#[derive(Debug, Clone, Copy, PartialEq, Eq)]
pub struct Push {
    /// Who asked for it, and gets it.
    pub to: Peer,
    pub datagram: usize,
    pub rate: u64,
    pub total_bytes: u64,
    /// Bytes that have gone out.
    pub total: u64,
    /// Whether a send failed.
    pub failed: bool,
}

impl Push {
    /// Whether nothing is left to send.
    pub open spec fn over(self) -> bool {
        self.failed || self.total >= self.total_bytes
    }

    /// The push after `n` bytes more.
    pub open spec fn after(self, n: nat) -> Push {
        Push { total: (self.total + n) as u64, ..self }
    }

    /// Microseconds between two datagrams: a second where the rate is none, and never nothing,
    /// however high the rate.
    pub open spec fn period(self) -> u64 {
        if self.rate == 0 {
            MICROS_PER_SEC
        } else if self.rate > MICROS_PER_SEC {
            1
        } else {
            MICROS_PER_SEC / self.rate
        }
    }

    /// What one datagram holds.
    pub fn payload(&self) -> (bytes: Vec<u8>)
        ensures
            bytes@ == Seq::new(self.datagram as nat, |i: int| FILLER),
            bytes.len() == self.datagram,
            forall|i: int| 0 <= i < bytes.len() ==> #[trigger] bytes@[i] == 0xAB,
    {
        let mut bytes: Vec<u8> = Vec::new();
        let mut i: usize = 0;
        while i < self.datagram
            invariant
                i <= self.datagram,
                bytes@ == Seq::new(i as nat, |j: int| FILLER),
            decreases self.datagram - i,
        {
            bytes.push(FILLER);
            i = i + 1;
            assert(bytes@ =~= Seq::new(i as nat, |j: int| FILLER));
        }
        bytes
    }

    /// Microseconds between two datagrams.
    ///
    /// A timer that ticks every microsecond is the fastest there is, so a rate beyond it is pushed
    /// at that.
    pub fn period_micros(&self) -> (micros: u64)
        ensures
            micros == self.period(),
            micros >= 1,
    {
        if self.rate == 0 {
            MICROS_PER_SEC
        } else if self.rate > MICROS_PER_SEC {
            1
        } else {
            let micros: u64 = MICROS_PER_SEC / self.rate;
            proof {
                vstd::arithmetic::div_mod::lemma_div_non_zero(
                    MICROS_PER_SEC as int,
                    self.rate as int,
                );
            }
            micros
        }
    }

    /// Whether nothing is left to send.
    pub fn is_over(&self) -> (yes: bool)
        ensures
            yes == self.over(),
            yes == (self.failed || self.total >= self.total_bytes),
    {
        self.failed || self.total >= self.total_bytes
    }

    /// A send failed, and the push ends.
    pub fn fail(&mut self)
        ensures
            *final(self) == (Push { failed: true, ..*old(self) }),
            final(self).over(),
    {
        self.failed = true;
    }
}

// ── The service ──────────────────────────────────────────────────────────────

/// A service: what it does, whether it has begun to push, and its accounts.
#[derive(Debug, Clone, Copy, PartialEq, Eq)]
pub struct UdpService {
    pub mode: Mode,
    pub pushing: bool,
    pub received: u64,
    pub sent: u64,
}

impl UdpService {
    /// The service after a datagram of `len` bytes.
    pub open spec fn after_datagram(self, len: nat) -> UdpService {
        UdpService {
            pushing: self.pushing || self.mode is Push,
            received: wrapped(self.received, len),
            ..self
        }
    }

    /// The push that a datagram from `peer` starts.
    pub open spec fn started(self, peer: Peer) -> Option<Push> {
        match self.mode {
            Mode::Push { datagram, rate, total_bytes } => if self.pushing {
                None
            } else {
                Some(Push { to: peer, datagram, rate, total_bytes, total: 0, failed: false })
            },
            Mode::Sink => None,
        }
    }

    /// The service after it sent `n` bytes.
    pub open spec fn after_sending(self, n: nat) -> UdpService {
        UdpService { sent: wrapped(self.sent, n), ..self }
    }

    /// A service that has received nothing.
    pub fn new(mode: Mode) -> (service: UdpService)
        ensures
            service == (UdpService { mode, pushing: false, received: 0, sent: 0 }),
    {
        UdpService { mode, pushing: false, received: 0, sent: 0 }
    }

    /// A datagram of `len` bytes arrived from `peer`. What comes back is a push to start, to that
    /// peer.
    ///
    /// Latched: the client's request is one datagram, and a second request must not start a second
    /// push racing the first down the same Session.
    pub fn on_datagram(&mut self, peer: Peer, len: usize) -> (push: Option<Push>)
        ensures
            *final(self) == old(self).after_datagram(len as nat),
            push == old(self).started(peer),
            push is Some == (old(self).mode is Push && !old(self).pushing),
            push is Some ==> old(self).mode == (Mode::Push {
                datagram: push->0.datagram,
                rate: push->0.rate,
                total_bytes: push->0.total_bytes,
            }),
            push is Some ==> push->0.to == peer && push->0.total == 0 && !push->0.failed,
            old(self).received + len <= u64::MAX ==> final(self).received == old(self).received
                + len,
            old(self).received + len > u64::MAX ==> final(self).received == old(self).received
                + len - 0x1_0000_0000_0000_0000,
            final(self).sent == old(self).sent,
            final(self).mode == old(self).mode,
            final(self).pushing == (old(self).pushing || old(self).mode is Push),
    {
        self.received = account(self.received, len);
        match self.mode {
            Mode::Push { datagram, rate, total_bytes } => {
                if self.pushing {
                    None
                } else {
                    self.pushing = true;
                    Some(Push { to: peer, datagram, rate, total_bytes, total: 0, failed: false })
                }
            },
            Mode::Sink => None,
        }
    }

    /// A datagram of the push went out, `n` bytes of it.
    pub fn on_sent(&mut self, push: &mut Push, n: usize)
        requires
            old(push).total + n <= u64::MAX,
        ensures
            *final(self) == old(self).after_sending(n as nat),
            *final(push) == old(push).after(n as nat),
            final(push).total == old(push).total + n,
            final(push).total_bytes == old(push).total_bytes,
            final(push).datagram == old(push).datagram,
            final(push).to == old(push).to,
            final(push).failed == old(push).failed,
            old(self).sent + n <= u64::MAX ==> final(self).sent == old(self).sent + n,
            old(self).sent + n > u64::MAX ==> final(self).sent == old(self).sent + n
                - 0x1_0000_0000_0000_0000,
            final(self).received == old(self).received,
    {
        push.total = push.total + n as u64;
        self.sent = account(self.sent, n);
    }

    /// Bytes the service has received from the Exit — the Entry → Exit direction.
    pub fn received(&self) -> (bytes: u64)
        ensures
            bytes == self.received,
    {
        self.received
    }

    /// Bytes the service has pushed towards the Exit — the direction PIX bills.
    pub fn sent(&self) -> (bytes: u64)
        ensures
            bytes == self.sent,
    {
        self.sent
    }
}

// ── Laws ─────────────────────────────────────────────────────────────────────

/// A datagram: who sent it, and its length.
pub type DatagramModel = (Peer, nat);

/// The service after those datagrams, one after another.
pub open spec fn after_all(service: UdpService, datagrams: Seq<DatagramModel>) -> UdpService
    decreases datagrams.len(),
{
    if datagrams.len() == 0 {
        service
    } else {
        after_all(service, datagrams.drop_last()).after_datagram(datagrams.last().1)
    }
}

/// The pushes that those datagrams start.
pub open spec fn pushes_started(service: UdpService, datagrams: Seq<DatagramModel>) -> Seq<Push>
    decreases datagrams.len(),
{
    if datagrams.len() == 0 {
        seq![]
    } else {
        let before = pushes_started(service, datagrams.drop_last());
        match after_all(service, datagrams.drop_last()).started(datagrams.last().0) {
            Some(push) => before.push(push),
            None => before,
        }
    }
}

/// However many datagrams arrive, one push starts: the one that the first of them asks for, which
/// goes to whoever sent that, whoever sends later. A sink starts none and sends nothing.
pub proof fn law_one_push_to_the_first_sender(service: UdpService, datagrams: Seq<DatagramModel>)
    requires
        !service.pushing,
    ensures
        service.mode is Push && datagrams.len() > 0 ==> pushes_started(service, datagrams) == seq![
            service.started(datagrams.first().0)->0,
        ] && pushes_started(service, datagrams)[0].to == datagrams.first().0,
        service.mode is Sink || datagrams.len() == 0 ==> pushes_started(service, datagrams)
            == Seq::<Push>::empty(),
        after_all(service, datagrams).pushing == (service.mode is Push && datagrams.len() > 0),
        after_all(service, datagrams).mode == service.mode,
        after_all(service, datagrams).sent == service.sent,
    decreases datagrams.len(),
{
    if datagrams.len() > 0 {
        let rest = datagrams.drop_last();
        law_one_push_to_the_first_sender(service, rest);
        if rest.len() > 0 {
            assert(rest.first() == datagrams.first());
        } else {
            assert(datagrams.last() == datagrams.first());
            assert(pushes_started(service, datagrams) =~= match service.started(
                datagrams.first().0,
            ) {
                Some(push) => seq![push],
                None => seq![],
            });
        }
    }
}

/// The bytes of those datagrams.
pub open spec fn bytes_of(datagrams: Seq<DatagramModel>) -> nat
    decreases datagrams.len(),
{
    if datagrams.len() == 0 {
        0
    } else {
        bytes_of(datagrams.drop_last()) + datagrams.last().1
    }
}

/// Every byte that arrives is accounted for, whether it starts a push or not.
pub proof fn law_every_byte_is_accounted_for(service: UdpService, datagrams: Seq<DatagramModel>)
    ensures
        after_all(service, datagrams).received == wrapped(service.received, bytes_of(datagrams)),
        service.received + bytes_of(datagrams) <= u64::MAX ==> after_all(
            service,
            datagrams,
        ).received == service.received + bytes_of(datagrams),
    decreases datagrams.len(),
{
    if datagrams.len() > 0 {
        let rest = datagrams.drop_last();
        law_every_byte_is_accounted_for(service, rest);
        let whole: int = 0x1_0000_0000_0000_0000;
        let (a, b) = (service.received + bytes_of(rest), datagrams.last().1 as int);
        vstd::arithmetic::div_mod::lemma_add_mod_noop(a, b, whole);
        vstd::arithmetic::div_mod::lemma_add_mod_noop(a % whole, b, whole);
        vstd::arithmetic::div_mod::lemma_mod_twice(a, whole);
    }
}

/// The push after `k` whole datagrams.
pub open spec fn after_datagrams(push: Push, k: nat) -> Push {
    push.after(k * push.datagram as nat)
}

/// A push of whole datagrams stops at its total: it is not over while bytes are owed, and once it
/// is over, less than one datagram has gone out beyond them.
pub proof fn law_a_push_stops_at_its_total(push: Push, k: nat)
    requires
        push.total == 0,
        !push.failed,
        k > 0,
        k * push.datagram <= u64::MAX,
        !after_datagrams(push, (k - 1) as nat).over(),
        after_datagrams(push, k).over(),
    ensures
        push.total_bytes <= after_datagrams(push, k).total < push.total_bytes + push.datagram,
        push.total_bytes % (push.datagram as u64) == 0 ==> after_datagrams(push, k).total
            == push.total_bytes,
{
    let d = push.datagram as int;
    let t = push.total_bytes as int;
    assert(k * d == (k - 1) * d + d) by (nonlinear_arith);
    assert((k - 1) * d >= 0) by (nonlinear_arith)
        requires
            k > 0,
            d >= 0,
    ;
    assert(after_datagrams(push, (k - 1) as nat).total == (k - 1) * d);
    assert(after_datagrams(push, k).total == k * d);
    if push.total_bytes % (push.datagram as u64) == 0 {
        let q = t / d;
        vstd::arithmetic::div_mod::lemma_fundamental_div_mod(t, d);
        assert(k == q) by (nonlinear_arith)
            requires
                t == d * q,
                (k - 1) * d < t <= k * d,
                d > 0,
        ;
        assert(k * d == d * q) by (nonlinear_arith)
            requires
                k == q,
        ;
    }
}

/// A datagram in push mode starts a push of the size, the rate and the total that the mode has, to
/// whoever sent it, with nothing gone out yet; so it is over at once only where there is nothing to
/// send. Once a push has started, and in any other mode, a datagram starts none.
pub proof fn law_a_push_is_what_the_mode_says(service: UdpService, peer: Peer)
    ensures
        service.started(peer) is Some <==> service.mode is Push && !service.pushing,
        service.started(peer) matches Some(push) ==> {
            &&& service.mode == (Mode::Push {
                datagram: push.datagram,
                rate: push.rate,
                total_bytes: push.total_bytes,
            })
            &&& push.to == peer
            &&& push.total == 0
            &&& !push.failed
            &&& push.over() <==> push.total_bytes == 0
        },
{
}

/// The sizes of what went out, all together.
pub open spec fn sum_of(sizes: Seq<nat>) -> nat
    decreases sizes.len(),
{
    if sizes.len() == 0 {
        0
    } else {
        sum_of(sizes.drop_last()) + sizes.last()
    }
}

/// A service and its push after sends of those sizes.
pub open spec fn after_sends(service: UdpService, push: Push, sizes: Seq<nat>) -> (UdpService, Push)
    decreases sizes.len(),
{
    if sizes.len() == 0 {
        (service, push)
    } else {
        let (s, p) = after_sends(service, push, sizes.drop_last());
        (s.after_sending(sizes.last()), p.after(sizes.last()))
    }
}

proof fn lemma_after_sends(service: UdpService, push: Push, sizes: Seq<nat>)
    requires
        service.sent + sum_of(sizes) <= u64::MAX,
        push.total + sum_of(sizes) <= u64::MAX,
    ensures
        after_sends(service, push, sizes).0 == (UdpService {
            sent: (service.sent + sum_of(sizes)) as u64,
            ..service
        }),
        after_sends(service, push, sizes).1 == (Push {
            total: (push.total + sum_of(sizes)) as u64,
            ..push
        }),
    decreases sizes.len(),
{
    if sizes.len() > 0 {
        lemma_after_sends(service, push, sizes.drop_last());
    }
}

/// A service in push mode that was asked for its push, and sends until the push is over without a
/// failure, has sent at least the total of its mode, and less than a datagram more; and its
/// accounts hold just what was sent.
pub proof fn law_a_service_sends_its_total(
    service: UdpService,
    peer: Peer,
    datagram: usize,
    rate: u64,
    total_bytes: u64,
    sizes: Seq<nat>,
)
    requires
        service.mode == (Mode::Push { datagram, rate, total_bytes }),
        !service.pushing,
        sizes.len() > 0,
        service.sent + sum_of(sizes) <= u64::MAX,
        forall|i: int| 0 <= i < sizes.len() ==> #[trigger] sizes[i] <= datagram,
        !after_sends(service, service.started(peer)->0, sizes.drop_last()).1.over(),
        after_sends(service, service.started(peer)->0, sizes).1.over(),
    ensures
        total_bytes <= sum_of(sizes) < total_bytes + datagram,
        after_sends(service, service.started(peer)->0, sizes).0.sent == service.sent + sum_of(sizes),
        after_sends(service, service.started(peer)->0, sizes).0.received == service.received,
{
    let push = service.started(peer)->0;
    lemma_after_sends(service, push, sizes);
    lemma_after_sends(service, push, sizes.drop_last());
    assert(sizes[sizes.len() - 1] <= datagram);
}

/// While less than the total of the mode was sent, and no send failed, the push goes on.
pub proof fn law_a_push_goes_on_while_bytes_are_owed(
    service: UdpService,
    peer: Peer,
    datagram: usize,
    rate: u64,
    total_bytes: u64,
    sizes: Seq<nat>,
)
    requires
        service.mode == (Mode::Push { datagram, rate, total_bytes }),
        !service.pushing,
        service.sent + sum_of(sizes) <= u64::MAX,
    ensures
        after_sends(service, service.started(peer)->0, sizes).1.over() <==> sum_of(sizes)
            >= total_bytes,
{
    lemma_after_sends(service, service.started(peer)->0, sizes);
}

/// As many periods as the rate has datagrams fit into a second, and no longer period does; a rate
/// faster than the timer is pushed as fast as it ticks, and a rate of none once a second.
pub proof fn law_the_period_is_the_rate(push: Push)
    ensures
        1 <= push.rate <= 1_000_000 ==> push.period() * push.rate <= 1_000_000 < (push.period() + 1)
            * push.rate,
        push.rate > 1_000_000 ==> push.period() == 1,
        push.rate == 0 ==> push.period() == 1_000_000,
{
    if 1 <= push.rate <= 1_000_000 {
        let (m, r) = (1_000_000int, push.rate as int);
        vstd::arithmetic::div_mod::lemma_fundamental_div_mod(m, r);
        vstd::arithmetic::div_mod::lemma_mod_bound(m, r);
        let q = m / r;
        assert(q * r <= m < (q + 1) * r) by (nonlinear_arith)
            requires
                m == r * q + m % r,
                0 <= m % r < r,
        ;
    }
}

/// How many datagrams a push takes: as many as cover its total.
pub open spec fn datagrams_for(push: Push) -> nat {
    ((push.total_bytes + push.datagram - 1) / push.datagram as int) as nat
}

/// Whatever its rate, a push of whole datagrams ends, and after as many of them as cover its total,
/// no sooner.
pub proof fn law_a_push_ends(push: Push, k: nat)
    requires
        push.total == 0,
        !push.failed,
        push.datagram > 0,
        datagrams_for(push) * push.datagram <= u64::MAX,
        k <= datagrams_for(push),
    ensures
        after_datagrams(push, k).over() == (k == datagrams_for(push)),
{
    let d = push.datagram as int;
    let t = push.total_bytes as int;
    let n = datagrams_for(push) as int;
    vstd::arithmetic::div_mod::lemma_fundamental_div_mod(t + d - 1, d);
    vstd::arithmetic::div_mod::lemma_mod_bound(t + d - 1, d);
    vstd::arithmetic::div_mod::lemma_div_pos_is_pos(t + d - 1, d);
    let r = (t + d - 1) % d;
    assert(n * d <= t + d - 1 && n * d >= t) by (nonlinear_arith)
        requires
            t + d - 1 == d * n + r,
            0 <= r < d,
    ;
    assert(0 <= k * d <= n * d) by (nonlinear_arith)
        requires
            0 <= k <= n,
            d > 0,
    ;
    if k < n {
        assert(k * d <= n * d - d) by (nonlinear_arith)
            requires
                k <= n - 1,
                d > 0,
        ;
    }
}

} // verus!
