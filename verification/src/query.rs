//! A one-shot measurement of a server: what each reply adds to the report, and
//! what the report concludes.

use vstd::prelude::*;

use crate::exchange::{
    is_measurement, is_usable, leap_name, leap_str, measure, refid_str, refid_text, sample_of,
    usable, Measurement,
};
use crate::filter::{is_best, Sample, SampleRegister};
use crate::ntp::NtpPacket;
use crate::regression::{default_weighting, is_regression, RegressConfig, RegressEstimate};

verus! {

/// How many samples a query keeps for its conclusions.
pub const QUERY_SAMPLES: usize = 64;

/// One answered exchange. Times are picoseconds.
#[derive(Clone, Copy, Debug, PartialEq, Eq, Structural)]
pub struct SampleReport {
    pub offset_ps: i128,
    pub delay_ps: i128,
    pub stratum: u8,
    /// 16.16 fixed-point seconds.
    pub root_delay: u32,
    /// 16.16 fixed-point seconds.
    pub root_dispersion: u32,
}

/// What a query found out.
pub struct QueryReport {
    pub sent: u32,
    pub received: u32,
    pub samples: Vec<SampleReport>,
    /// The lowest-delay sample.
    pub best: Option<Sample>,
    pub regression: Option<RegressEstimate>,
    pub reference_id: String,
    pub leap: &'static str,
    register: SampleRegister,
}

impl QueryReport {
    /// The samples that the conclusions rest on.
    pub closed spec fn window(&self) -> Seq<Sample> {
        self.register@
    }

    pub closed spec fn wf(&self) -> bool {
        self.register.wf() && self.register.limit() == QUERY_SAMPLES
    }

    pub closed spec fn sent_count(&self) -> nat {
        self.sent as nat
    }

    pub closed spec fn received_count(&self) -> nat {
        self.received as nat
    }

    pub closed spec fn answers(&self) -> Seq<SampleReport> {
        self.samples@
    }

    pub closed spec fn refid(&self) -> Seq<char> {
        self.reference_id@
    }

    pub closed spec fn leap_text(&self) -> Seq<char> {
        self.leap@
    }

    pub closed spec fn conclusion(&self) -> (Option<Sample>, Option<RegressEstimate>) {
        (self.best, self.regression)
    }

    /// A report of nothing yet.
    pub fn new() -> (report: Self)
        ensures
            report.wf(),
            report.window() == Seq::<Sample>::empty(),
            report.sent_count() == 0,
            report.received_count() == 0,
            report.answers() == Seq::<SampleReport>::empty(),
            report.refid() == ""@,
            report.leap_text() == ""@,
            report.conclusion() == (None::<Sample>, None::<RegressEstimate>),
    {
        QueryReport {
            sent: 0,
            received: 0,
            samples: Vec::new(),
            best: None,
            regression: None,
            reference_id: "".to_owned(),
            leap: "",
            register: SampleRegister::new(QUERY_SAMPLES),
        }
    }

    /// One more request went out.
    pub fn request_sent(&mut self)
        requires
            old(self).wf(),
        ensures
            final(self).wf(),
            final(self).window() == old(self).window(),
            final(self).sent_count() == if old(self).sent_count() < u32::MAX {
                old(self).sent_count() + 1
            } else {
                old(self).sent_count()
            },
            final(self).received_count() == old(self).received_count(),
            final(self).answers() == old(self).answers(),
            final(self).refid() == old(self).refid(),
            final(self).leap_text() == old(self).leap_text(),
            final(self).conclusion() == old(self).conclusion(),
    {
        self.sent = self.sent.saturating_add(1);
    }

    /// When the newest sample was taken.
    pub fn newest(&self) -> (t: Option<u64>)
        requires
            self.wf(),
        ensures
            t == if self.window().len() == 0 {
                None
            } else {
                Some(self.window().last().t)
            },
    {
        let n: usize = self.register.len();
        if n == 0 {
            None
        } else {
            Some(self.register.get(n - 1).t)
        }
    }

    /// Take a reply into the report, if its numbers may be used at all. The
    /// request left at `t1` and the reply arrived at `t4`, in Unix nanoseconds;
    /// the same on the monotonic clock. Returns whether the reply counted.
    pub fn take_reply(
        &mut self,
        reply: &NtpPacket,
        t1: i64,
        t4: i64,
        t1_mono: u64,
        t4_mono: u64,
    ) -> (taken: bool)
        requires
            old(self).wf(),
            old(self).window().len() > 0 ==> old(self).window().last().t <= (t1_mono + t4_mono) / 2,
        ensures
            final(self).wf(),
            final(self).sent_count() == old(self).sent_count(),
            final(self).conclusion() == old(self).conclusion(),
            !is_usable(*reply) ==> !taken,
            is_usable(*reply) ==> exists|m: Option<Measurement>| #[trigger]
                is_measurement(*reply, t1 as int, t4 as int, m) && taken == m is Some && (taken
                    ==> added(
                    *old(self),
                    *final(self),
                    *reply,
                    m->Some_0,
                    (t1_mono + t4_mono) / 2,
                )),
            !taken ==> final(self).window() == old(self).window() && final(self).received_count()
                == old(self).received_count() && final(self).answers() == old(self).answers()
                && final(self).refid() == old(self).refid() && final(self).leap_text() == old(
                self,
            ).leap_text(),
    {
        if !usable(reply) {
            return false;
        }
        let measured: Option<Measurement> = measure(reply, t1, t4);
        assert(is_measurement(*reply, t1 as int, t4 as int, measured));
        let m: Measurement = match measured {
            Some(m) => m,
            None => {
                return false;
            },
        };
        proof {
            crate::exchange::a_measured_delay_is_not_negative(*reply, t1 as int, t4 as int, m);
        }
        let sample: Sample = sample_of(&m, t1_mono, t4_mono);
        self.received = self.received.saturating_add(1);
        self.reference_id = refid_str(reply.stratum, reply.reference_id);
        self.leap = leap_str(reply.leap);
        self.samples.push(
            SampleReport {
                offset_ps: m.offset_ps,
                delay_ps: m.delay_ps,
                stratum: reply.stratum,
                root_delay: reply.root_delay.0,
                root_dispersion: reply.root_dispersion.0,
            },
        );
        self.register.push(sample);
        true
    }

    /// Draw the conclusions, as of `now`.
    pub fn conclude(&mut self, now: u64)
        requires
            old(self).wf(),
        ensures
            final(self).wf(),
            final(self).window() == old(self).window(),
            final(self).sent_count() == old(self).sent_count(),
            final(self).received_count() == old(self).received_count(),
            final(self).answers() == old(self).answers(),
            final(self).refid() == old(self).refid(),
            final(self).leap_text() == old(self).leap_text(),
            match final(self).conclusion().0 {
                None => old(self).window().len() == 0,
                Some(b) => exists|k: int| #[trigger]
                    is_best(old(self).window(), k) && b == old(self).window()[k],
            },
            match final(self).conclusion().1 {
                None => old(self).window().len() < 3,
                Some(r) => old(self).window().len() >= 3 && is_regression(
                    old(self).window(),
                    default_weighting(),
                    now,
                    r,
                ),
            },
    {
        self.best = self.register.best();
        proof {
            self.register.is_bounded();
        }
        self.regression = self.register.regress(&RegressConfig::default(), now);
    }

    /// What the process ends with: a server that never answered is a failure.
    pub fn exit_code(&self) -> (code: i32)
        ensures
            code == if self.received_count() == 0 {
                1int
            } else {
                0int
            },
    {
        if self.received == 0 {
            1
        } else {
            0
        }
    }
}

/// Whether `after` is `before` with one reply's measurement taken in, at the
/// monotonic time `t`.
pub open spec fn added(
    before: QueryReport,
    after: QueryReport,
    reply: NtpPacket,
    m: Measurement,
    t: int,
) -> bool {
    let sample = Sample {
        t: t as u64,
        offset: m.offset_ps,
        delay: if m.delay_ps > i64::MAX {
            i64::MAX
        } else {
            m.delay_ps as i64
        },
        dispersion: m.dispersion_ps,
    };
    let window = before.window().push(sample);
    &&& after.received_count() == if before.received_count() < u32::MAX {
        before.received_count() + 1
    } else {
        before.received_count()
    }
    &&& after.answers() == before.answers().push(
        SampleReport {
            offset_ps: m.offset_ps,
            delay_ps: m.delay_ps,
            stratum: reply.stratum,
            root_delay: reply.root_delay.0,
            root_dispersion: reply.root_dispersion.0,
        },
    )
    &&& after.refid() == refid_text(reply.stratum, reply.reference_id@)
    &&& after.leap_text() == leap_name(reply.leap)@
    &&& after.window() == if window.len() <= QUERY_SAMPLES {
        window
    } else {
        window.drop_first()
    }
}

} // verus!
