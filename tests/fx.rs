use automaton::fx::{apply_fxs, apply_section, classify, FxContext, FxFn, FxOutcome, FxPass};

/// Replaces each sample by a constant.
struct Constant(i64);

impl FxFn<i64> for Constant {
    fn step(&mut self, _context: FxContext<'_, i64>) -> i64 {
        self.0
    }
}

/// Counts the samples it has seen in its section, restarting on `init`.
struct Counter {
    seen: i64,
}

impl FxFn<i64> for Counter {
    fn step(&mut self, context: FxContext<'_, i64>) -> i64 {
        assert_eq!(context.init, context.index == context.i0);
        self.seen += 1;
        self.seen
    }
}

/// Adds the already rewritten value of the previous slot to this one.
struct RunningSum;

impl FxFn<i64> for RunningSum {
    fn step(&mut self, context: FxContext<'_, i64>) -> i64 {
        assert_eq!(context.array[context.index], context.value);
        if context.init {
            context.value
        } else {
            context.value + context.array[context.index - 1]
        }
    }
}

fn counter() -> Counter {
    Counter { seen: 0 }
}

fn constant(v: i64) -> impl Fn() -> Constant {
    move || Constant(v)
}

#[test]
fn unknown_effect_is_skipped_and_later_sections_run() {
    let mut table: Vec<i64> = vec![1, 2, 3, 4, 5, 6];
    let passes = vec![
        FxPass { factory: None, i0: 0, i1: 5 },
        FxPass { factory: Some(constant(9)), i0: 3, i1: 4 },
    ];
    let outcomes = apply_fxs(&mut table, &passes);
    assert_eq!(outcomes, vec![FxOutcome::UnknownEffect, FxOutcome::Applied]);
    assert_eq!(table, vec![1, 2, 3, 9, 9, 6]);
}

#[test]
fn empty_window_leaves_the_table_unchanged() {
    let mut table: Vec<i64> = vec![1, 2, 3, 4];
    let passes = vec![
        FxPass { factory: Some(constant(0)), i0: 2, i1: 2 },
        FxPass { factory: Some(constant(0)), i0: 3, i1: 1 },
    ];
    let outcomes = apply_fxs(&mut table, &passes);
    assert_eq!(outcomes, vec![FxOutcome::DegenerateRange, FxOutcome::DegenerateRange]);
    assert_eq!(table, vec![1, 2, 3, 4]);
}

#[test]
fn unknown_effect_is_reported_before_an_empty_window() {
    let pass: FxPass<fn() -> Constant> = FxPass { factory: None, i0: 3, i1: 1 };
    assert_eq!(classify(&pass), FxOutcome::UnknownEffect);
    let pass = FxPass { factory: Some(constant(1)), i0: 1, i1: 3 };
    assert_eq!(classify(&pass), FxOutcome::Applied);
}

#[test]
fn later_sections_override_earlier_ones() {
    let mut table: Vec<i64> = vec![0; 6];
    let passes = vec![
        FxPass { factory: Some(constant(1)), i0: 0, i1: 3 },
        FxPass { factory: Some(constant(2)), i0: 2, i1: 5 },
    ];
    apply_fxs(&mut table, &passes);
    assert_eq!(table, vec![1, 1, 2, 2, 2, 2]);
}

#[test]
fn each_section_gets_a_fresh_effect() {
    let mut table: Vec<i64> = vec![0; 8];
    let passes = vec![
        FxPass { factory: Some(counter as fn() -> Counter), i0: 1, i1: 3 },
        FxPass { factory: Some(counter as fn() -> Counter), i0: 5, i1: 7 },
    ];
    apply_fxs(&mut table, &passes);
    assert_eq!(table, vec![0, 1, 2, 3, 0, 1, 2, 3]);
}

#[test]
fn results_are_written_back_before_the_next_sample() {
    let mut table: Vec<i64> = vec![1, 1, 1, 1, 1];
    let mut effect = RunningSum;
    apply_section(&mut table, &mut effect, 1, 3);
    assert_eq!(table, vec![1, 1, 2, 3, 1]);
}
