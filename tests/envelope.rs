use acid::adsr::{samples_of, Level, LiveAdsr, LiveAdsrExt, Shape, Stage};
use acid::config::Config;
use acid::process::Process;


#[test]
fn durations_become_whole_samples() {
    assert_eq!(samples_of(10_000, 48000), 480);
    assert_eq!(samples_of(100_000, 48000), 4800);
    assert_eq!(samples_of(1_000, 44100), 44);
    assert_eq!(samples_of(0, 44100), 0);
    assert_eq!(samples_of(u32::MAX, u32::MAX), 18446744065119);
}

#[test]
fn percussive_adsr_attack_decay_sustain_release() {
    let config = Config::new(48000, 1, 120);
    let mut e = LiveAdsr::new((), 10_000, 100_000, 50_000);
    for k in 0..480u64 {
        assert_eq!(
            e.process(&config, true),
            Level::Hold(Shape::Attack { pos: k, len: 480 })
        );
    }
    for k in 0..4800u64 {
        assert_eq!(
            e.process(&config, true),
            Level::Hold(Shape::Decay { pos: k, len: 4800 })
        );
    }
    for _ in 0..120 {
        assert_eq!(e.process(&config, true), Level::Hold(Shape::Sustain));
    }
    assert_eq!(e.stage, Stage::Ads);
    for j in 0..2400u64 {
        assert_eq!(
            e.process(&config, false),
            Level::Release { start: Shape::Sustain, pos: j, len: 2400 }
        );
    }
    assert_eq!(e.process(&config, false), Level::Hold(Shape::Zero));
    assert_eq!(e.stage, Stage::Idle);
    assert_eq!(e.process(&config, false), Level::Hold(Shape::Zero));
}

#[test]
fn release_starts_from_level_reached() {
    let config = Config::new(1000, 1, 120);
    let mut e = LiveAdsr::new((), 10_000, 10_000, 3_000);
    for _ in 0..4 {
        e.process(&config, true);
    }
    assert_eq!(e.current, Level::Hold(Shape::Attack { pos: 3, len: 10 }));
    assert_eq!(
        e.process(&config, false),
        Level::Release { start: Shape::Attack { pos: 3, len: 10 }, pos: 0, len: 3 }
    );
}

#[test]
fn zero_release_lasts_one_sample() {
    let config = Config::new(1000, 1, 120);
    let mut e = LiveAdsr::new((), 0, 0, 0);
    assert_eq!(e.process(&config, true), Level::Hold(Shape::Sustain));
    assert_eq!(
        e.process(&config, false),
        Level::Release { start: Shape::Sustain, pos: 0, len: 1 }
    );
    assert_eq!(e.process(&config, false), Level::Hold(Shape::Zero));
    assert_eq!(e.stage, Stage::Idle);
}

#[test]
fn gate_during_release_is_ignored() {
    let config = Config::new(1000, 1, 120);
    let mut e = LiveAdsr::new((), 0, 0, 5_000);
    e.process(&config, true);
    e.process(&config, false);
    assert_eq!(
        e.process(&config, true),
        Level::Release { start: Shape::Sustain, pos: 1, len: 5 }
    );
    assert_eq!(e.stage, Stage::Release);
}

#[test]
fn idle_without_gate_stays_silent() {
    let config = Config::new(1000, 1, 120);
    let mut e = LiveAdsr::new((), 1_000, 1_000, 1_000);
    for _ in 0..5 {
        assert_eq!(e.process(&config, false), Level::Hold(Shape::Zero));
    }
    assert_eq!(e.stage, Stage::Idle);
}

#[test]
fn adsr_reads_gate_from_its_source() {
    let config = Config::new(1000, 1, 120);
    let gate = acid::timing::seq(vec![true, true, false, false]);
    let mut e = gate.adsr(2_000, 0, 1_000);
    assert_eq!(e.sample(&config, ()), Level::Hold(Shape::Attack { pos: 0, len: 2 }));
    assert_eq!(e.sample(&config, ()), Level::Hold(Shape::Attack { pos: 1, len: 2 }));
    assert_eq!(
        e.sample(&config, ()),
        Level::Release { start: Shape::Attack { pos: 1, len: 2 }, pos: 0, len: 1 }
    );
    assert_eq!(e.sample(&config, ()), Level::Hold(Shape::Zero));
}

#[test]
fn adsr_reset_returns_to_idle() {
    let config = Config::new(1000, 1, 120);
    let gate = acid::timing::seq(vec![true]);
    let mut e = gate.adsr(5_000, 0, 1_000);
    e.sample(&config, ());
    e.sample(&config, ());
    e.reset();
    assert_eq!(e.stage, Stage::Idle);
    assert_eq!(e.sample(&config, ()), Level::Hold(Shape::Attack { pos: 0, len: 5 }));
}

#[test]
fn reset_round_trip_gives_identical_output() {
    let config = Config::new(1000, 1, 120);
    let build = || {
        acid::timing::seq(vec![true, true, true, false, false, true, false, false, false])
            .adsr(2_000, 3_000, 2_000)
    };
    let mut fresh = build();
    let mut used = build();
    for _ in 0..1234 {
        used.sample(&config, ());
    }
    fresh.reset();
    used.reset();
    for _ in 0..500 {
        assert_eq!(fresh.sample(&config, ()), used.sample(&config, ()));
    }
}

use acid::adsr::{Adsr, AdsrStage, Curve};

#[test]
fn pitched_adsr_runs_each_stage_for_its_length() {
    let config = Config::new(1000, 1, 120);
    let mut e = Adsr::new((), 3_000, 2_000, 2_000);
    let mut got = Vec::new();
    for _ in 0..7 {
        got.push(e.process(&config, Some(440u32)));
    }
    assert_eq!(
        got,
        vec![
            (Curve::Rise { pos: 0, len: 3 }, Some(440)),
            (Curve::Rise { pos: 1, len: 3 }, Some(440)),
            (Curve::Rise { pos: 2, len: 3 }, Some(440)),
            (Curve::Fall { pos: 0, len: 2 }, Some(440)),
            (Curve::Fall { pos: 1, len: 2 }, Some(440)),
            (Curve::Sustain, Some(440)),
            (Curve::Sustain, Some(440)),
        ]
    );
    assert_eq!(e.stage, AdsrStage::Sustain);
    assert_eq!(
        e.process(&config, None),
        (Curve::Fade { start: Shape::Sustain, pos: 0, len: 2 }, Some(440))
    );
    assert_eq!(
        e.process(&config, None),
        (Curve::Fade { start: Shape::Sustain, pos: 1, len: 2 }, Some(440))
    );
    assert_eq!(e.stage, AdsrStage::Idle);
    assert_eq!(e.process(&config, None), (Curve::Silent, Some(440)));
}

#[test]
fn pitched_adsr_release_starts_from_attack_level() {
    let config = Config::new(1000, 1, 120);
    let mut e = Adsr::new((), 10_000, 1_000, 0);
    e.process(&config, Some(1u8));
    e.process(&config, Some(2u8));
    assert_eq!(
        e.process(&config, None),
        (Curve::Fade { start: Shape::Attack { pos: 1, len: 10 }, pos: 0, len: 1 }, Some(2))
    );
    assert_eq!(e.stage, AdsrStage::Idle);
}

#[test]
fn pitched_adsr_zero_lengths_last_one_sample() {
    let config = Config::new(1000, 1, 120);
    let mut e = Adsr::new((), 0, 0, 0);
    assert_eq!(e.process(&config, Some(7i16)).0, Curve::Rise { pos: 0, len: 1 });
    assert_eq!(e.process(&config, Some(7i16)).0, Curve::Fall { pos: 0, len: 1 });
    assert_eq!(e.process(&config, Some(7i16)).0, Curve::Sustain);
}

#[test]
fn pitched_adsr_ignores_note_during_release() {
    let config = Config::new(1000, 1, 120);
    let mut e = Adsr::new((), 0, 0, 3_000);
    e.process(&config, Some(1u8));
    e.process(&config, None);
    assert_eq!(e.stage, AdsrStage::Release);
    let (curve, pitch) = e.process(&config, Some(9u8));
    assert_eq!(curve, Curve::Fade { start: Shape::Attack { pos: 0, len: 1 }, pos: 1, len: 3 });
    assert_eq!(pitch, Some(9));
}
