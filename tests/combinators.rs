use acid::config::Config;
use acid::process::{c, An, Pipe, Process, Reset, Stack};
use acid::timing::{count, samples, Count, Samples};

/// Adds its input to a running total and emits the total.
struct Acc {
    total: u64,
}

impl Process for Acc {
    type Input = usize;
    type Output = usize;

    fn sample(&mut self, _config: &Config, input: usize) -> usize {
        self.total += input as u64;
        self.total as usize
    }

    fn reset(&mut self) {
        self.total = 0;
    }
}

/// Doubles its input.
struct Twice;

impl Process for Twice {
    type Input = usize;
    type Output = usize;

    fn sample(&mut self, _config: &Config, input: usize) -> usize {
        input * 2
    }

    fn reset(&mut self) {}
}

fn clock() -> Config {
    Config::new(44100, 1, 140)
}

#[test]
fn pipe_is_associative() {
    let config = clock();
    let mut left = Pipe {
        x: Pipe { x: count(5), y: Acc { total: 0 } },
        y: Twice,
    };
    let mut right = Pipe {
        x: count(5),
        y: Pipe { x: Acc { total: 0 }, y: Twice },
    };
    for _ in 0..100 {
        assert_eq!(left.sample(&config, ()), right.sample(&config, ()));
    }
}

#[test]
fn pipe_feeds_upstream_output_downstream() {
    let config = clock();
    let mut p = An(count(3)).then(Acc { total: 0 });
    let got: Vec<usize> = (0..6).map(|_| p.sample(&config, ())).collect();
    assert_eq!(got, vec![0, 1, 3, 6, 6, 7]);
}

#[test]
fn stack_joins_left_then_right() {
    let config = clock();
    let mut alone_x = count(2);
    let mut alone_y = acid::timing::seq(vec![7u8, 8, 9, 10]);
    let mut s = Stack { x: count(2), y: acid::timing::seq(vec![7u8, 8, 9, 10]) };
    for _ in 0..12 {
        let (l, r) = s.sample(&config, ());
        assert_eq!(l, alone_x.sample(&config, ()));
        assert_eq!(r, alone_y.sample(&config, ()));
    }
}

#[test]
fn stack_builder_pairs_outputs() {
    let config = clock();
    let mut s = An(count(1)).stack_with(c(5i32));
    assert_eq!(s.sample(&config, ()), (0, 5));
    assert_eq!(s.sample(&config, ()), (1, 5));
    assert_eq!(s.sample(&config, ()), (0, 5));
}

#[test]
fn count_wraps_after_n() {
    let config = clock();
    let mut k = count(3);
    let got: Vec<usize> = (0..9).map(|_| k.sample(&config, ())).collect();
    assert_eq!(got, vec![0, 1, 2, 3, 0, 1, 2, 3, 0]);
}

#[test]
fn count_of_zero_stays_at_zero() {
    let config = clock();
    let mut k = count(0);
    for _ in 0..5 {
        assert_eq!(k.sample(&config, ()), 0);
    }
}

#[test]
fn count_reset_starts_over() {
    let config = clock();
    let mut k: Count = count(10);
    k.sample(&config, ());
    k.sample(&config, ());
    k.reset();
    assert_eq!(k.sample(&config, ()), 0);
}

#[test]
fn samples_fires_every_n_plus_one_ticks() {
    let config = clock();
    let mut t: Samples = samples(4);
    let fired: Vec<usize> = (0..20).filter(|_| t.sample(&config, ())).collect();
    assert_eq!(fired, vec![4, 9, 14, 19]);
}

#[test]
fn seq_cycles_through_values() {
    let config = clock();
    let mut s = acid::timing::seq(vec![1i32, 0, 0, 0]);
    let got: Vec<i32> = (0..9).map(|_| s.sample(&config, ())).collect();
    assert_eq!(got, vec![1, 0, 0, 0, 1, 0, 0, 0, 1]);
}

#[test]
fn seq_reset_returns_to_first_value() {
    let config = clock();
    let mut s = acid::timing::seq(vec![3u32, 4, 5]);
    s.sample(&config, ());
    s.sample(&config, ());
    s.reset();
    assert_eq!(s.sample(&config, ()), 3);
}

#[test]
fn constant_source_repeats() {
    let config = clock();
    let mut k = c(42u16);
    for _ in 0..3 {
        assert_eq!(k.sample(&config, ()), 42);
    }
}

#[test]
fn reset_restarts_source_on_rising_edge_only() {
    let config = clock();
    // gate: on, on, off, on, off, off, on
    let gate = acid::timing::seq(vec![true, true, false, true, false, false, true]);
    let mut r = An(count(100)).res(gate);
    let got: Vec<usize> = (0..7).map(|_| r.sample(&config, ())).collect();
    assert_eq!(got, vec![0, 1, 2, 0, 1, 2, 0]);
}

#[test]
fn reset_without_gate_leaves_source_running() {
    let config = clock();
    let mut r = Reset { src: count(100), trig: c(false), triggered: false };
    let got: Vec<usize> = (0..4).map(|_| r.sample(&config, ())).collect();
    assert_eq!(got, vec![0, 1, 2, 3]);
}

#[test]
fn reset_clears_armed_flag() {
    let mut r = Reset { src: count(3), trig: c(true), triggered: true };
    r.reset();
    assert!(!r.triggered);
}
