//! All running states together, moved on minute by minute.

use crate::avwap;
use crate::avwap::{AvwapMinute, AvwapModel, AvwapState, AvwapSync};
use crate::clock;
use crate::clock::{MINUTE_US, SECOND_US};
use crate::funding;
use crate::funding::{
    FundingChange, FundingInput, FundingModel, FundingState, FundingSync, FundingWindowMetrics,
    Sample,
};
use crate::history;
use crate::history::copied;
use crate::pulse;
use crate::pulse::{HighVolumePulseState, PulseMinute, PulseModel, PulseSettings, PulseSync};
use crate::rvwap;
use crate::rvwap::{
    RvwapMinute, RvwapModel, RvwapSettings, RvwapState, RvwapSync,
};
use crate::tpo;
use crate::tpo::{
    SessionSettings, TpoMinute, TpoModel, TpoSessionState, TpoState, TpoStep, TpoSync,
};
use vstd::prelude::*;

verus! {

/// What the running states are made with; all windows by their minutes.
#[derive(Clone, Debug, PartialEq, Eq)]
pub struct IncrementalIndicatorConfig {
    pub tpo_session_windows: Vec<i64>,
    pub tpo_ib_minutes: i64,
    pub tpo_dev_output_windows: Vec<i64>,
    pub rvwap_windows: Vec<i64>,
    pub rvwap_output_windows: Vec<i64>,
    pub rvwap_min_samples: usize,
    pub high_volume_pulse_z_windows: Vec<i64>,
    pub high_volume_pulse_summary_windows: Vec<i64>,
    pub high_volume_pulse_min_samples: usize,
    /// How many minutes are remembered.
    pub history_limit_minutes: i64,
}

/// Whether all minutes lie from the least on and within the cap.
pub open spec fn within_cap(minutes: Seq<i64>, least: int) -> bool {
    forall|w: int|
        0 <= w < minutes.len() ==> least <= (#[trigger] minutes[w])
            <= clock::WINDOW_LIMIT_MINUTES
}

impl IncrementalIndicatorConfig {
    /// Whether windows have a length that can be worked with.
    pub open spec fn is_sound(&self) -> bool {
        &&& within_cap(self.tpo_session_windows@, 1)
        &&& self.tpo_ib_minutes <= clock::WINDOW_LIMIT_MINUTES
        &&& within_cap(self.tpo_dev_output_windows@, 1)
        &&& within_cap(self.rvwap_windows@, i64::MIN as int)
        &&& within_cap(self.rvwap_output_windows@, 1)
        &&& within_cap(self.high_volume_pulse_z_windows@, 0)
        &&& within_cap(self.high_volume_pulse_summary_windows@, 0)
        &&& 0 <= self.history_limit_minutes <= clock::WINDOW_LIMIT_MINUTES
    }

    /// Whether windows have a length that can be worked with.
    pub fn sound(&self) -> (out: bool)
        ensures
            out == self.is_sound(),
    {
        capped(&self.tpo_session_windows, 1) && self.tpo_ib_minutes <= clock::WINDOW_LIMIT_MINUTES
            && capped(&self.tpo_dev_output_windows, 1) && capped(&self.rvwap_windows, i64::MIN)
            && capped(&self.rvwap_output_windows, 1)
            && capped(&self.high_volume_pulse_z_windows, 0) && capped(
            &self.high_volume_pulse_summary_windows,
            0,
        ) && 0 <= self.history_limit_minutes && self.history_limit_minutes
            <= clock::WINDOW_LIMIT_MINUTES
    }

    /// What the rolling averages are made with.
    pub open spec fn rvwap_settings(&self) -> RvwapSettings {
        RvwapSettings {
            rolling: self.rvwap_windows@,
            outputs: self.rvwap_output_windows@,
            min_samples: self.rvwap_min_samples,
            limit: self.history_limit_minutes as int,
        }
    }

    /// What the bursts of volume are made with.
    pub open spec fn pulse_settings(&self) -> PulseSettings {
        PulseSettings {
            z_windows: self.high_volume_pulse_z_windows@,
            summary_windows: self.high_volume_pulse_summary_windows@,
            min_samples: self.high_volume_pulse_min_samples,
            limit: self.history_limit_minutes as int,
        }
    }

    /// What the sessions are made with.
    pub open spec fn tpo_settings(&self) -> Seq<SessionSettings> {
        Seq::new(
            self.tpo_session_windows@.len(),
            |k: int|
                SessionSettings {
                    session_minutes: self.tpo_session_windows@[k],
                    ib_minutes: self.tpo_ib_minutes,
                    outputs: self.tpo_dev_output_windows@,
                },
        )
    }
}

fn capped(minutes: &Vec<i64>, least: i64) -> (out: bool)
    ensures
        out == within_cap(minutes@, least as int),
{
    let mut w: usize = 0;
    while w < minutes.len()
        invariant
            w <= minutes@.len(),
            forall|i: int|
                0 <= i < w ==> least <= (#[trigger] minutes@[i]) <= clock::WINDOW_LIMIT_MINUTES,
        decreases minutes@.len() - w,
    {
        if minutes[w] < least || minutes[w] > clock::WINDOW_LIMIT_MINUTES {
            assert(!(least <= minutes@[w as int] <= clock::WINDOW_LIMIT_MINUTES));
            return false;
        }
        w += 1;
    }
    true
}

/// A history of both markets as each of the running states reads it, and what is known of
/// funding.
pub struct MinuteInputs<'a> {
    pub avwap_futures: &'a [AvwapMinute],
    pub avwap_spot: &'a [AvwapMinute],
    pub rvwap: &'a [RvwapMinute],
    pub pulse: &'a [PulseMinute],
    pub sessions: &'a [TpoMinute],
    pub funding_changes: &'a [FundingChange],
    pub funding_points: &'a [Sample],
    pub mark_points: &'a [Sample],
    pub index_points: &'a [Sample],
}

impl<'a> MinuteInputs<'a> {
    /// Whether all rows lie at instants that can be worked with.
    pub open spec fn is_sound(&self) -> bool {
        &&& forall|i: int|
            0 <= i < self.avwap_futures@.len() ==> -clock::INSTANT_LIMIT_US + SECOND_US <= (
            #[trigger] self.avwap_futures@[i]).ts_bucket <= clock::INSTANT_LIMIT_US
        &&& forall|i: int|
            0 <= i < self.rvwap@.len() ==> -clock::INSTANT_LIMIT_US <= (
            #[trigger] self.rvwap@[i]).ts_bucket <= clock::INSTANT_LIMIT_US - MINUTE_US
        &&& forall|i: int|
            0 <= i < self.pulse@.len() ==> -clock::INSTANT_LIMIT_US <= (
            #[trigger] self.pulse@[i]).ts_bucket <= clock::INSTANT_LIMIT_US - MINUTE_US
        &&& forall|i: int|
            0 <= i < self.funding_changes@.len() ==> (
            #[trigger] self.funding_changes@[i]).ts_change < i64::MAX
        &&& funding::all_instants(self.funding_points@)
        &&& funding::all_instants(self.mark_points@)
        &&& funding::all_instants(self.index_points@)
        &&& self.rvwap@.len() < usize::MAX
        &&& tpo::rows_are_sound(self.sessions@)
    }

    /// What is known of funding.
    pub open spec fn funding_input(&self) -> FundingInput {
        FundingInput {
            points: self.funding_points@,
            marks: self.mark_points@,
            indexes: self.index_points@,
            changes: self.funding_changes@,
        }
    }
}

/// What is held by all running states.
pub struct IncrementalModel {
    pub funding: FundingModel,
    pub avwap: AvwapModel,
    pub rvwap: RvwapModel,
    pub pulse: PulseModel,
    pub tpo: TpoModel,
}

/// What changed in each of the running states, with a report on each row that the
/// sessions took in.
#[derive(Debug)]
pub struct IncrementalStep<R> {
    pub funding: FundingSync,
    pub avwap: AvwapSync,
    pub rvwap: RvwapSync,
    pub pulse: PulseSync,
    pub sessions: TpoSync<R>,
}

/// Whether a step says that every state started over, and how.
pub open spec fn tells_rebuild<R, F: Fn(&TpoState, &TpoMinute, &Vec<TpoStep>) -> R>(
    step: IncrementalStep<R>,
    report: F,
    ts_bucket: i64,
    inputs: MinuteInputs,
    c: IncrementalIndicatorConfig,
) -> bool {
    &&& step.funding matches FundingSync::Rebuilt(steps) && funding::are_wholes(
        steps@,
        ts_bucket,
        inputs.funding_input(),
    )
    &&& step.avwap matches AvwapSync::Rebuilt(steps) && avwap::are_steps(
        steps@,
        avwap::no_minutes(),
        inputs.avwap_futures@,
        inputs.avwap_spot@,
        history::shorter(inputs.avwap_futures@.len(), inputs.avwap_spot@.len()),
    )
    &&& step.rvwap matches RvwapSync::Rebuilt(steps) && rvwap::are_steps(
        steps@,
        rvwap::nothing_held(c.rvwap_output_windows@.len()),
        inputs.rvwap@,
        c.rvwap_settings(),
        inputs.rvwap@.len() as int,
    )
    &&& step.pulse matches PulseSync::Rebuilt(steps) && pulse::are_steps(
        steps@,
        pulse::nothing_held(c.pulse_settings()),
        inputs.pulse@,
        c.pulse_settings(),
        inputs.pulse@.len() as int,
    )
    &&& step.sessions matches TpoSync::Rebuilt(reports) && tpo::are_reports(
        reports@,
        report,
        tpo::all_fresh(ts_bucket, c.tpo_settings()),
        inputs.sessions@,
        c.tpo_settings(),
        inputs.sessions@.len() as int,
    )
}

/// Whether a step says how every state moved on.
pub open spec fn tells_sync<R, F: Fn(&TpoState, &TpoMinute, &Vec<TpoStep>) -> R>(
    step: IncrementalStep<R>,
    report: F,
    before: IncrementalModel,
    ts_bucket: i64,
    inputs: MinuteInputs,
    c: IncrementalIndicatorConfig,
) -> bool {
    &&& funding::tells_sync(step.funding, before.funding, ts_bucket, inputs.funding_input())
    &&& avwap::tells_sync(
        step.avwap,
        before.avwap,
        inputs.avwap_futures@,
        inputs.avwap_spot@,
    )
    &&& rvwap::tells_sync(step.rvwap, before.rvwap, inputs.rvwap@, c.rvwap_settings())
    &&& pulse::tells_sync(step.pulse, before.pulse, inputs.pulse@, c.pulse_settings())
    &&& tpo::tells_sync(
        step.sessions,
        report,
        before.tpo,
        ts_bucket,
        inputs.sessions@,
        c.tpo_settings(),
    )
}

/// All running states.
pub struct IncrementalIndicatorState {
    configured: bool,
    config: IncrementalIndicatorConfig,
    funding: FundingState,
    avwap: AvwapState,
    rvwap: RvwapState,
    pulse: HighVolumePulseState,
    tpo: TpoState,
}

impl View for IncrementalIndicatorState {
    type V = IncrementalModel;

    closed spec fn view(&self) -> IncrementalModel {
        IncrementalModel {
            funding: self.funding@,
            avwap: self.avwap@,
            rvwap: self.rvwap@,
            pulse: self.pulse@,
            tpo: self.tpo@,
        }
    }
}

/// What is held before anything came in.
pub open spec fn nothing_held(config: IncrementalIndicatorConfig) -> IncrementalModel {
    IncrementalModel {
        funding: funding::nothing_held(),
        avwap: avwap::no_minutes(),
        rvwap: rvwap::nothing_held(config.rvwap_output_windows@.len()),
        pulse: pulse::nothing_held(config.pulse_settings()),
        tpo: TpoModel {
            sessions: Seq::new(
                config.tpo_session_windows@.len(),
                |k: int|
                    tpo::SessionModel {
                        start: None,
                        bars: Seq::empty(),
                        dev: Seq::new(
                            config.tpo_dev_output_windows@.len(),
                            |w: int| Seq::<i64>::empty(),
                        ),
                    },
            ),
            last_ts: None,
        },
    }
}

impl IncrementalIndicatorState {
    /// What the states were made with.
    pub closed spec fn spec_config(&self) -> IncrementalIndicatorConfig {
        self.config
    }

    /// Whether the states were told what to be made with.
    pub closed spec fn is_configured(&self) -> bool {
        self.configured
    }

    /// Every state is well formed and made as configured.
    pub closed spec fn well_formed(&self) -> bool {
        &&& self.config.is_sound()
        &&& self.funding.well_formed()
        &&& self.avwap.well_formed()
        &&& self.rvwap.well_formed()
        &&& self.rvwap.settings() == self.config.rvwap_settings()
        &&& self.pulse.well_formed()
        &&& self.pulse.settings() == self.config.pulse_settings()
        &&& self.tpo.well_formed()
        &&& self.tpo.settings() == self.config.tpo_settings()
    }

    /// The sessions.
    pub fn tpo(&self) -> (out: &TpoState)
        requires
            self.well_formed(),
        ensures
            out.well_formed(),
            out@ == self@.tpo,
            out.settings() == self.spec_config().tpo_settings(),
    {
        &self.tpo
    }

    /// The state of the funding rates.
    pub fn funding(&self) -> (out: &FundingState)
        requires
            self.well_formed(),
        ensures
            out.well_formed(),
            out@ == self@.funding,
    {
        &self.funding
    }

    /// The state of the anchored averages.
    pub fn avwap(&self) -> (out: &AvwapState)
        requires
            self.well_formed(),
        ensures
            out.well_formed(),
            out@ == self@.avwap,
    {
        &self.avwap
    }

    /// The state of the rolling averages.
    pub fn rvwap(&self) -> (out: &RvwapState)
        requires
            self.well_formed(),
        ensures
            out.well_formed(),
            out@ == self@.rvwap,
    {
        &self.rvwap
    }

    /// Takes up a configuration and starts over.
    pub fn configure(&mut self, config: IncrementalIndicatorConfig)
        requires
            config.is_sound(),
        ensures
            final(self).well_formed(),
            final(self).is_configured(),
            final(self).spec_config() == config,
            final(self)@ == nothing_held(config),
    {
        self.configured = true;
        self.config = config;
        self.reset_states();
    }

    /// Forgets everything but the configuration.
    pub fn reset(&mut self)
        requires
            old(self).well_formed(),
        ensures
            final(self).well_formed(),
            final(self).is_configured() == old(self).is_configured(),
            final(self).spec_config() == old(self).spec_config(),
            final(self)@ == nothing_held(old(self).spec_config()),
    {
        self.reset_states();
    }

    fn reset_states(&mut self)
        requires
            old(self).config.is_sound(),
        ensures
            final(self).well_formed(),
            final(self).configured == old(self).configured,
            final(self).config == old(self).config,
            final(self)@ == nothing_held(old(self).config),
    {
        self.funding = FundingState::new();
        self.avwap = AvwapState::new();
        self.rvwap =
        RvwapState::new(
            copied(&self.config.rvwap_windows),
            copied(&self.config.rvwap_output_windows),
            self.config.rvwap_min_samples,
            self.config.history_limit_minutes,
        );
        self.pulse =
        HighVolumePulseState::new(
            copied(&self.config.high_volume_pulse_z_windows),
            copied(&self.config.high_volume_pulse_summary_windows),
            self.config.high_volume_pulse_min_samples,
            self.config.history_limit_minutes,
        );
        self.tpo = TpoState::new(sessions_of(&self.config));
        proof {
            let goal = nothing_held(self.config).tpo.sessions;
            assert forall|k: int| 0 <= k < goal.len() implies self@.tpo.sessions[k]
                == goal[k] by {}
            assert(self@.tpo.sessions =~= goal);
            assert(self.tpo.settings() =~= self.config.tpo_settings());
        }
    }

    /// Starts over with whole histories. Nothing is followed where the states were not
    /// configured or there is no minute. After each row that the sessions take in a
    /// report is made.
    pub fn rebuild<R, F: Fn(&TpoState, &TpoMinute, &Vec<TpoStep>) -> R>(
        &mut self,
        ts_bucket: Option<i64>,
        inputs: &MinuteInputs,
        report: F,
    ) -> (out: Option<IncrementalStep<R>>)
        requires
            old(self).well_formed(),
            tpo::can_report(report),
            inputs.is_sound(),
            ts_bucket matches Some(ts) ==> -clock::DATE_LIMIT_US <= ts
                <= clock::DATE_LIMIT_US,
        ensures
            final(self).well_formed(),
            final(self).is_configured() == old(self).is_configured(),
            final(self).spec_config() == old(self).spec_config(),
            (out is Some) == (old(self).is_configured() && ts_bucket is Some),
            out is None ==> final(self)@ == nothing_held(old(self).spec_config()),
            out is Some ==> final(self)@ == rebuilt(
                ts_bucket->0,
                *inputs,
                old(self).spec_config(),
            ),
            out matches Some(step) ==> tells_rebuild(
                step,
                report,
                ts_bucket->0,
                *inputs,
                old(self).spec_config(),
            ),
    {
        self.reset_states();
        if !self.configured {
            return None;
        }
        let ts: i64 = match ts_bucket {
            Some(ts) => ts,
            None => {
                return None;
            },
        };
        let funding = FundingSync::Rebuilt(
            self.funding.rebuild(
                ts,
                inputs.funding_changes,
                inputs.funding_points,
                inputs.mark_points,
                inputs.index_points,
            ),
        );
        let avwap = AvwapSync::Rebuilt(self.avwap.rebuild(inputs.avwap_futures, inputs.avwap_spot));
        let rvwap = RvwapSync::Rebuilt(self.rvwap.rebuild(inputs.rvwap));
        let pulse = PulseSync::Rebuilt(self.pulse.rebuild(inputs.pulse));
        let sessions: TpoSync<R> = self.tpo.sync(ts, inputs.sessions, report);
        Some(IncrementalStep { funding, avwap, rvwap, pulse, sessions })
    }

    /// Moves on to the end of a minute. Nothing happens where the states were not
    /// configured. After each row that the sessions take in a report is made.
    pub fn on_finalized_minute<R, F: Fn(&TpoState, &TpoMinute, &Vec<TpoStep>) -> R>(
        &mut self,
        ts_bucket: i64,
        inputs: &MinuteInputs,
        report: F,
    ) -> (out: Option<IncrementalStep<R>>)
        requires
            old(self).well_formed(),
            tpo::can_report(report),
            inputs.is_sound(),
            -clock::DATE_LIMIT_US <= ts_bucket <= clock::DATE_LIMIT_US,
            rvwap::samples_upto(old(self)@.rvwap.points, old(self)@.rvwap.base)
                + inputs.rvwap@.len() < usize::MAX,
        ensures
            final(self).well_formed(),
            final(self).is_configured() == old(self).is_configured(),
            final(self).spec_config() == old(self).spec_config(),
            (out is Some) == old(self).is_configured(),
            out is None ==> final(self)@ == old(self)@,
            out is Some ==> final(self)@ == synced(
                old(self)@,
                ts_bucket,
                *inputs,
                old(self).spec_config(),
            ),
            out matches Some(step) ==> tells_sync(
                step,
                report,
                old(self)@,
                ts_bucket,
                *inputs,
                old(self).spec_config(),
            ),
    {
        if !self.configured {
            return None;
        }
        let funding: FundingSync = self.funding.sync(
            ts_bucket,
            inputs.funding_changes,
            inputs.funding_points,
            inputs.mark_points,
            inputs.index_points,
        );
        let avwap: AvwapSync = self.avwap.sync(inputs.avwap_futures, inputs.avwap_spot);
        let rvwap: RvwapSync = self.rvwap.sync(inputs.rvwap);
        let pulse: PulseSync = self.pulse.sync(inputs.pulse);
        let sessions: TpoSync<R> = self.tpo.sync(ts_bucket, inputs.sessions, report);
        Some(IncrementalStep { funding, avwap, rvwap, pulse, sessions })
    }
}

/// What is held after every state started over at a minute, with a whole history.
pub open spec fn rebuilt(
    ts_bucket: i64,
    inputs: MinuteInputs,
    c: IncrementalIndicatorConfig,
) -> IncrementalModel {
    IncrementalModel {
        funding: funding::rebuilt(ts_bucket, inputs.funding_input()),
        avwap: avwap::rebuilt(inputs.avwap_futures@, inputs.avwap_spot@),
        rvwap: rvwap::rebuilt(
            inputs.rvwap@,
            c.rvwap_output_windows@,
            c.history_limit_minutes as int,
        ),
        pulse: pulse::rebuilt(inputs.pulse@, c.pulse_settings()),
        tpo: tpo::all_followed(
            tpo::all_fresh(ts_bucket, c.tpo_settings()),
            inputs.sessions@,
            c.tpo_settings(),
            inputs.sessions@.len() as int,
        ),
    }
}

/// What is held after every state moved on to the end of a minute.
pub open spec fn synced(
    m: IncrementalModel,
    ts_bucket: i64,
    inputs: MinuteInputs,
    c: IncrementalIndicatorConfig,
) -> IncrementalModel {
    IncrementalModel {
        funding: funding::synced(m.funding, ts_bucket, inputs.funding_input()),
        avwap: avwap::synced(m.avwap, inputs.avwap_futures@, inputs.avwap_spot@),
        rvwap: rvwap::synced(
            m.rvwap,
            inputs.rvwap@,
            c.rvwap_output_windows@,
            c.history_limit_minutes as int,
        ),
        pulse: pulse::synced(m.pulse, inputs.pulse@, c.pulse_settings()),
        tpo: tpo::all_synced(m.tpo, ts_bucket, inputs.sessions@, c.tpo_settings()),
    }
}

/// Whether averages, bursts of volume and sessions are those of states that started over
/// at a minute, with the first `k` rows of a history.
pub open spec fn followed_first(
    m: IncrementalModel,
    start: i64,
    inputs: MinuteInputs,
    c: IncrementalIndicatorConfig,
    k: int,
) -> bool {
    &&& m.avwap == avwap::rebuilt(inputs.avwap_futures@.take(k), inputs.avwap_spot@.take(k))
    &&& m.rvwap == rvwap::rebuilt(
        inputs.rvwap@.take(k),
        c.rvwap_output_windows@,
        c.history_limit_minutes as int,
    )
    &&& m.pulse == pulse::rebuilt(inputs.pulse@.take(k), c.pulse_settings())
    &&& m.tpo == tpo::all_followed(
        tpo::all_fresh(start, c.tpo_settings()),
        inputs.sessions@.take(k),
        c.tpo_settings(),
        k,
    )
}

/// Whether the histories are there and in order: those of both markets with the same whole
/// minutes, none with a volume that is more than none and yet too little to count, and
/// samples of funding and marks with a value by the end of the minute, if with any.
pub open spec fn is_history(ts_bucket: i64, inputs: MinuteInputs) -> bool {
    &&& inputs.is_sound()
    &&& 0 < inputs.avwap_futures@.len()
    &&& 0 < inputs.rvwap@.len()
    &&& 0 < inputs.pulse@.len()
    &&& 0 < inputs.sessions@.len()
    &&& history::stamps(inputs.avwap_futures@) == history::stamps(inputs.avwap_spot@)
    &&& history::in_order(history::stamps(inputs.avwap_futures@))
    &&& history::in_order(history::stamps(inputs.rvwap@))
    &&& history::in_order(history::stamps(inputs.pulse@))
    &&& history::in_order(history::stamps(inputs.sessions@))
    &&& forall|i: int|
        0 <= i < inputs.avwap_futures@.len() ==> (#[trigger] inputs.avwap_futures@[i]).ts_bucket
            as int % (MINUTE_US as int) == 0
    &&& forall|i: int|
        0 <= i < inputs.avwap_futures@.len() ==> avwap::trades_plainly(
            #[trigger] inputs.avwap_futures@[i],
        )
    &&& forall|i: int|
        0 <= i < inputs.avwap_spot@.len() ==> avwap::trades_plainly(
            #[trigger] inputs.avwap_spot@[i],
        )
    &&& history::in_order(history::stamps(inputs.funding_points@))
    &&& history::in_order(history::stamps(inputs.mark_points@))
    &&& funding::latest_value(inputs.funding_points@, ts_bucket + MINUTE_US) is Some
        || funding::no_values(inputs.funding_points@)
    &&& funding::latest_value(inputs.mark_points@, ts_bucket + MINUTE_US) is Some
        || funding::no_values(inputs.mark_points@)
}

/// Whether what is held of funding says what the metrics of each kept window say.
pub open spec fn funding_is_direct(
    m: FundingModel,
    ts_bucket: i64,
    input: FundingInput,
    index_now: Seq<Sample>,
) -> bool {
    forall|w: int, metrics: FundingWindowMetrics|
        0 <= w < 8 && #[trigger] funding::are_window_metrics(
            metrics,
            input,
            index_now,
            ts_bucket,
            funding::kept_minutes()[w],
        ) ==> funding::keeps_metrics(m, input, ts_bucket, w, metrics)
}

/// Whether what is held of the anchored averages is what the windows of the whole history
/// have: the minutes and the gaps, and after less than thirty days the series.
pub open spec fn avwap_is_direct(
    m: AvwapModel,
    fut: Seq<AvwapMinute>,
    spot: Seq<AvwapMinute>,
) -> bool {
    forall|w: int|
        0 <= w < 7 ==> #[trigger] avwap::keeps_window(m, fut, w) && avwap::keeps_gaps(
            m,
            fut,
            spot,
            w,
        ) && (fut.last().ts_bucket - fut[0].ts_bucket < avwap::AVWAP_MEMORY_DAYS * clock::DAY_US
            ==> avwap::keeps_series(m, fut, w, fut.len() as int))
}

/// Whether what is held of the rolling averages is what the whole series has: what the
/// windows that are remembered average over, and after a history that is remembered the
/// instants of each output window.
pub open spec fn rvwap_is_direct(m: RvwapModel, rows: Seq<RvwapMinute>, s: RvwapSettings) -> bool {
    let points = rvwap::points_of(rows, rows.len() as int);
    &&& forall|w: int|
        0 <= w < s.rolling.len() && 1 <= #[trigger] s.rolling[w] <= s.limit
            ==> rvwap::averages_as_series(m, points, s.rolling[w], s.min_samples)
    &&& rows.last().ts_bucket - rows[0].ts_bucket < s.limit * MINUTE_US ==> forall|w: int|
        0 <= w < s.outputs.len() ==> #[trigger] m.series[w] == rvwap::ends_of(
            points,
            rvwap::output_points(points, s.outputs[w], points.len() as int),
        )
}

/// Whether what is held of the bursts of volume is what the whole series has: the rolling
/// volume of each window that is remembered, how many earlier ones it is compared with, and
/// the most volume in each summary window.
pub open spec fn pulse_is_direct(m: PulseModel, rows: Seq<PulseMinute>, s: PulseSettings) -> bool {
    let points = pulse::all_points(rows);
    &&& forall|w: int|
        0 <= w < s.z_windows.len() && 1 <= s.limit && #[trigger] s.z_windows[w] <= s.limit
            ==> pulse::rolls_as_series(m, points, s.z_windows[w])
    &&& forall|w: int|
        0 <= w < s.z_windows.len() ==> #[trigger] m.seen[w] == if rows.len() < pulse::required(
            s.z_windows[w],
            s.min_samples,
        ) {
            rows.len() as int
        } else {
            pulse::required(s.z_windows[w], s.min_samples)
        }
    &&& forall|w: int|
        0 <= w < s.summary_windows.len() && 1 <= #[trigger] s.summary_windows[w]
            ==> pulse::summarises_series(m, points, s.summary_windows[w], w)
}

/// Whether each session holds the minutes of the session of the last row, and no others.
pub open spec fn tpo_is_direct(
    m: TpoModel,
    rows: Seq<TpoMinute>,
    s: Seq<SessionSettings>,
) -> bool {
    &&& m.sessions.len() == s.len()
    &&& forall|k: int|
        0 <= k < s.len() ==> tpo::holds_session(
            #[trigger] m.sessions[k],
            rows,
            s[k],
            rows.len() as int,
        )
}

/// After all states started over with a history, each of them says what is worked out
/// from the whole history in one go: funding as the metrics of its windows, the anchored
/// averages as their windows, gaps and series, the rolling averages and the bursts of
/// volume as the whole series, and each session as its own minutes.
#[verifier::rlimit(40)]
#[verifier::spinoff_prover]
pub proof fn law_rebuilt_states_are_direct(
    ts_bucket: i64,
    inputs: MinuteInputs,
    index_now: Seq<Sample>,
    c: IncrementalIndicatorConfig,
)
    requires
        c.is_sound(),
        -clock::DATE_LIMIT_US <= ts_bucket <= clock::DATE_LIMIT_US,
        is_history(ts_bucket, inputs),
    ensures
        ({
            let m = rebuilt(ts_bucket, inputs, c);
            &&& funding_is_direct(m.funding, ts_bucket, inputs.funding_input(), index_now)
            &&& avwap_is_direct(m.avwap, inputs.avwap_futures@, inputs.avwap_spot@)
            &&& rvwap_is_direct(m.rvwap, inputs.rvwap@, c.rvwap_settings())
            &&& pulse_is_direct(m.pulse, inputs.pulse@, c.pulse_settings())
            &&& tpo_is_direct(m.tpo, inputs.sessions@, c.tpo_settings())
        }),
{
    lemma_funding_is_direct(ts_bucket, inputs, index_now);
    lemma_avwap_is_direct(ts_bucket, inputs);
    lemma_rvwap_is_direct(ts_bucket, inputs, c);
    lemma_pulse_is_direct(ts_bucket, inputs, c);
    lemma_tpo_is_direct(ts_bucket, inputs, c);
}

proof fn lemma_funding_is_direct(ts_bucket: i64, inputs: MinuteInputs, index_now: Seq<Sample>)
    requires
        -clock::DATE_LIMIT_US <= ts_bucket <= clock::DATE_LIMIT_US,
        is_history(ts_bucket, inputs),
    ensures
        funding_is_direct(
            funding::rebuilt(ts_bucket, inputs.funding_input()),
            ts_bucket,
            inputs.funding_input(),
            index_now,
        ),
{
    let input = inputs.funding_input();
    assert(inputs.funding_points.len() == input.points.len());
    assert(inputs.mark_points.len() == input.marks.len());
    assert forall|w: int, metrics: FundingWindowMetrics|
        0 <= w < 8 && #[trigger] funding::are_window_metrics(
            metrics,
            input,
            index_now,
            ts_bucket,
            funding::kept_minutes()[w],
        ) implies funding::keeps_metrics(
        funding::rebuilt(ts_bucket, input),
        input,
        ts_bucket,
        w,
        metrics,
    ) by {
        funding::law_kept_window_has_its_metrics(input, index_now, ts_bucket, w, metrics);
    }
}

proof fn lemma_avwap_is_direct(ts_bucket: i64, inputs: MinuteInputs)
    requires
        is_history(ts_bucket, inputs),
    ensures
        avwap_is_direct(
            avwap::rebuilt(inputs.avwap_futures@, inputs.avwap_spot@),
            inputs.avwap_futures@,
            inputs.avwap_spot@,
        ),
{
    let fut = inputs.avwap_futures@;
    let spot = inputs.avwap_spot@;
    let m = avwap::rebuilt(fut, spot);
    assert(history::stamps(fut).len() == history::stamps(spot).len());
    assert(inputs.avwap_futures.len() == fut.len());
    assert forall|w: int| 0 <= w < 7 implies #[trigger] avwap::keeps_window(m, fut, w)
        && avwap::keeps_gaps(m, fut, spot, w) && (fut.last().ts_bucket - fut[0].ts_bucket
        < avwap::AVWAP_MEMORY_DAYS * clock::DAY_US ==> avwap::keeps_series(
        m,
        fut,
        w,
        fut.len() as int,
    )) by {
        avwap::law_held_minutes_match_window(fut, spot, w);
        avwap::law_held_gaps_match_window(fut, spot, w);
        if fut.last().ts_bucket - fut[0].ts_bucket < avwap::AVWAP_MEMORY_DAYS * clock::DAY_US {
            avwap::law_series_match(fut, spot, w, fut.len() as int);
        }
    }
}

proof fn lemma_rvwap_is_direct(
    ts_bucket: i64,
    inputs: MinuteInputs,
    c: IncrementalIndicatorConfig,
)
    requires
        c.is_sound(),
        is_history(ts_bucket, inputs),
    ensures
        rvwap_is_direct(rebuilt(ts_bucket, inputs, c).rvwap, inputs.rvwap@, c.rvwap_settings()),
{
    let rows = inputs.rvwap@;
    let s = c.rvwap_settings();
    let n = rows.len() as int;
    let m = rvwap::rebuilt(rows, s.outputs, s.limit);
    let points = rvwap::points_of(rows, n);
    assert forall|w: int|
        0 <= w < s.rolling.len() && 1 <= #[trigger] s.rolling[w]
            <= s.limit implies rvwap::averages_as_series(m, points, s.rolling[w], s.min_samples) by {
        rvwap::law_state_matches_series(rows, s.outputs, s.limit, s.rolling[w], s.min_samples);
    }
    if rows.last().ts_bucket - rows[0].ts_bucket < s.limit * MINUTE_US {
        assert forall|w: int| 0 <= w < s.outputs.len() implies #[trigger] m.series[w]
            == rvwap::ends_of(
            points,
            rvwap::output_points(points, s.outputs[w], points.len() as int),
        ) by {
            rvwap::law_state_reports_with_series(rows, s.outputs, s.limit, w, n);
        }
    }
}

proof fn lemma_pulse_is_direct(
    ts_bucket: i64,
    inputs: MinuteInputs,
    c: IncrementalIndicatorConfig,
)
    requires
        c.is_sound(),
        is_history(ts_bucket, inputs),
    ensures
        pulse_is_direct(rebuilt(ts_bucket, inputs, c).pulse, inputs.pulse@, c.pulse_settings()),
{
    let rows = inputs.pulse@;
    let s = c.pulse_settings();
    let m = pulse::rebuilt(rows, s);
    let points = pulse::all_points(rows);
    assert forall|w: int|
        0 <= w < s.z_windows.len() && 1 <= s.limit && #[trigger] s.z_windows[w]
            <= s.limit implies pulse::rolls_as_series(m, points, s.z_windows[w]) by {
        pulse::law_state_rolls_with_series(rows, s, s.z_windows[w]);
    }
    assert forall|w: int| 0 <= w < s.z_windows.len() implies #[trigger] m.seen[w]
        == if rows.len() < pulse::required(s.z_windows[w], s.min_samples) {
        rows.len() as int
    } else {
        pulse::required(s.z_windows[w], s.min_samples)
    } by {
        pulse::law_state_is_ready_with_series(rows, s, w, rows.len() as int);
    }
    assert forall|w: int|
        0 <= w < s.summary_windows.len() && 1
            <= #[trigger] s.summary_windows[w] implies pulse::summarises_series(
        m,
        points,
        s.summary_windows[w],
        w,
    ) by {
        pulse::law_state_summary_matches_series(rows, s, w);
    }
}

proof fn lemma_tpo_is_direct(
    ts_bucket: i64,
    inputs: MinuteInputs,
    c: IncrementalIndicatorConfig,
)
    requires
        c.is_sound(),
        is_history(ts_bucket, inputs),
    ensures
        tpo_is_direct(rebuilt(ts_bucket, inputs, c).tpo, inputs.sessions@, c.tpo_settings()),
{
    let rows = inputs.sessions@;
    let s = c.tpo_settings();
    let n = rows.len() as int;
    let first = tpo::all_fresh(ts_bucket, s);
    let m = tpo::all_followed(first, rows, s, n);
    if s.len() > 0 {
        tpo::law_sessions_follow_alone(first, rows, s, 0, n);
    } else {
        lemma_no_sessions(first, rows, s, n);
    }
    assert forall|k: int| 0 <= k < s.len() implies tpo::holds_session(
        #[trigger] m.sessions[k],
        rows,
        s[k],
        n,
    ) by {
        tpo::law_sessions_follow_alone(first, rows, s, k, n);
        tpo::law_session_holds_its_minutes(
            tpo::session_start(ts_bucket, s[k].session_minutes),
            rows,
            s[k],
            n,
        );
    }
}

proof fn lemma_no_sessions(m: TpoModel, rows: Seq<TpoMinute>, s: Seq<SessionSettings>, n: int)
    requires
        m.sessions.len() == 0,
    ensures
        tpo::all_followed(m, rows, s, n).sessions.len() == 0,
    decreases n,
{
    if n > 0 {
        lemma_no_sessions(m, rows, s, n - 1);
    }
}

/// Averages, bursts of volume and sessions that followed the first `k` rows of a history
/// and then move on with the whole of it hold what they hold that start over with the whole
/// of it, as long as rows lie a minute apart or more.
pub proof fn law_finalized_minutes_continue(
    m: IncrementalModel,
    start: i64,
    ts_bucket: i64,
    inputs: MinuteInputs,
    c: IncrementalIndicatorConfig,
    k: int,
)
    requires
        inputs.is_sound(),
        followed_first(m, start, inputs, c, k),
        0 < k <= inputs.avwap_futures@.len(),
        inputs.rvwap@.len() == inputs.avwap_futures@.len(),
        inputs.pulse@.len() == inputs.avwap_futures@.len(),
        inputs.sessions@.len() == inputs.avwap_futures@.len(),
        history::stamps(inputs.avwap_futures@) == history::stamps(inputs.avwap_spot@),
        history::minutes_apart(history::stamps(inputs.avwap_futures@)),
        history::minutes_apart(history::stamps(inputs.rvwap@)),
        history::minutes_apart(history::stamps(inputs.pulse@)),
        history::minutes_apart(history::stamps(inputs.sessions@)),
    ensures
        ({
            let now = synced(m, ts_bucket, inputs, c);
            let whole = rebuilt(start, inputs, c);
            &&& now.avwap == whole.avwap
            &&& now.rvwap == whole.rvwap
            &&& now.pulse == whole.pulse
            &&& now.tpo == whole.tpo
        }),
{
    let fut = inputs.avwap_futures@;
    let rows = inputs.sessions@;
    let s = c.tpo_settings();
    let first = tpo::all_fresh(start, s);
    assert(inputs.avwap_futures.len() == fut.len());
    assert(history::stamps(fut).len() == history::stamps(inputs.avwap_spot@).len());
    avwap::law_sync_continues(fut, inputs.avwap_spot@, k);
    rvwap::law_sync_continues(
        inputs.rvwap@,
        c.rvwap_output_windows@,
        c.history_limit_minutes as int,
        k,
    );
    pulse::law_sync_continues(inputs.pulse@, c.pulse_settings(), k);
    if k < rows.len() {
        tpo::law_sync_continues(first, rows, s, k);
    } else {
        assert(rows.take(k) =~= rows);
        assert(clock::is_instant(rows[k - 1].ts_bucket));
        history::law_sync_goes_on(history::stamps(rows), k);
    }
}

/// Whether a configuration asks for nothing.
pub open spec fn is_blank(c: IncrementalIndicatorConfig) -> bool {
    &&& c.tpo_session_windows@.len() == 0
    &&& c.tpo_ib_minutes == 0
    &&& c.tpo_dev_output_windows@.len() == 0
    &&& c.rvwap_windows@.len() == 0
    &&& c.rvwap_output_windows@.len() == 0
    &&& c.rvwap_min_samples == 0
    &&& c.high_volume_pulse_z_windows@.len() == 0
    &&& c.high_volume_pulse_summary_windows@.len() == 0
    &&& c.high_volume_pulse_min_samples == 0
    &&& c.history_limit_minutes == 0
}

impl Default for IncrementalIndicatorState {
    /// States that are not configured.
    fn default() -> (out: Self)
        ensures
            out.well_formed(),
            !out.is_configured(),
            out@ == nothing_held(out.spec_config()),
            is_blank(out.spec_config()),
    {
        let config = IncrementalIndicatorConfig {
            tpo_session_windows: Vec::new(),
            tpo_ib_minutes: 0,
            tpo_dev_output_windows: Vec::new(),
            rvwap_windows: Vec::new(),
            rvwap_output_windows: Vec::new(),
            rvwap_min_samples: 0,
            high_volume_pulse_z_windows: Vec::new(),
            high_volume_pulse_summary_windows: Vec::new(),
            high_volume_pulse_min_samples: 0,
            history_limit_minutes: 0,
        };
        let out = IncrementalIndicatorState {
            configured: false,
            funding: FundingState::new(),
            avwap: AvwapState::new(),
            rvwap: RvwapState::new(Vec::new(), Vec::new(), 0, 0),
            pulse: HighVolumePulseState::new(Vec::new(), Vec::new(), 0, 0),
            tpo: TpoState::new(Vec::new()),
            config,
        };
        proof {
            assert(out.rvwap.settings().rolling =~= out.config.rvwap_settings().rolling);
            assert(out.rvwap.settings().outputs =~= out.config.rvwap_settings().outputs);
            assert(out.pulse.settings().z_windows =~= out.config.pulse_settings().z_windows);
            assert(out.pulse.settings().summary_windows
                =~= out.config.pulse_settings().summary_windows);
            assert(out.tpo.settings() =~= out.config.tpo_settings());
            let goal = nothing_held(out.config);
            assert(out@.rvwap.series =~= goal.rvwap.series);
            assert(out@.pulse.seen =~= goal.pulse.seen);
            assert(out@.pulse.queues =~= goal.pulse.queues);
            assert(out@.tpo.sessions =~= goal.tpo.sessions);
        }
        out
    }
}

fn sessions_of(config: &IncrementalIndicatorConfig) -> (out: Vec<TpoSessionState>)
    requires
        config.is_sound(),
    ensures
        out@.len() == config.tpo_session_windows@.len(),
        forall|k: int|
            0 <= k < out@.len() ==> (#[trigger] out@[k]).well_formed() && out@[k].settings()
                == config.tpo_settings()[k] && out@[k]@.start is None && out@[k]@.bars == Seq::<
                tpo::RangeBar,
            >::empty() && out@[k]@.dev == Seq::new(
                config.tpo_dev_output_windows@.len(),
                |w: int| Seq::<i64>::empty(),
            ),
{
    let n: usize = config.tpo_session_windows.len();
    let mut out: Vec<TpoSessionState> = Vec::new();
    let mut k: usize = 0;
    while k < n
        invariant
            k <= n,
            n == config.tpo_session_windows@.len(),
            config.is_sound(),
            out@.len() == k,
            forall|i: int|
                0 <= i < out@.len() ==> (#[trigger] out@[i]).well_formed() && out@[i].settings()
                    == config.tpo_settings()[i] && out@[i]@.start is None && out@[i]@.bars
                    == Seq::<tpo::RangeBar>::empty() && out@[i]@.dev == Seq::new(
                    config.tpo_dev_output_windows@.len(),
                    |w: int| Seq::<i64>::empty(),
                ),
        decreases n - k,
    {
        assert(1 <= config.tpo_session_windows@[k as int] <= clock::WINDOW_LIMIT_MINUTES);
        let session: TpoSessionState = TpoSessionState::new(
            config.tpo_session_windows[k],
            config.tpo_ib_minutes,
            copied(&config.tpo_dev_output_windows),
        );
        out.push(session);
        k += 1;
    }
    out
}

} // verus!
