use vstd::prelude::*;

verus! {

/// What an effect sees of one sample: its slot, the window of the section
/// being applied, the sample's value before the effect, the whole table as it
/// stands (slots of the window before this one already rewritten), and whether
/// this is the first sample of the section.
pub struct FxContext<'a, T> {
    pub index: usize,
    pub i0: usize,
    pub i1: usize,
    pub value: T,
    pub array: &'a [T],
    pub init: bool,
}

/// An effect: called once for each sample of a section, in increasing order
/// of slot, it returns the sample's new value. An instance is made fresh for
/// each section, so state that it keeps between calls stays in one section.
pub trait FxFn<T>: Sized {
    /// Holds where this effect, handed the sample at slot `index` of the window
    /// `i0..=i1` while the table stands as `array`, may return `out` and be left
    /// in the state `after`. An effect says nothing of itself unless it
    /// states this.
    closed spec fn produces(&self, index: int, i0: int, i1: int, array: Seq<T>, out: T, after: Self) -> bool {
        true
    }

    /// The context handed in lies in its window, inside the table it shows,
    /// carries the value that the table holds at its slot, and is marked
    /// `init` at the window's first slot only.
    fn step(&mut self, context: FxContext<'_, T>) -> (r: T)
        requires
            context.i0 <= context.index <= context.i1,
            context.i1 < context.array@.len(),
            context.array@[context.index as int] == context.value,
            context.init == (context.index == context.i0),
        ensures
            old(self).produces(
                context.index as int,
                context.i0 as int,
                context.i1 as int,
                context.array@,
                r,
                *final(self),
            ),
    ;
}

/// `table` with the slots from `start` on replaced by `outs`.
pub open spec fn overwrite<T>(table: Seq<T>, start: int, outs: Seq<T>) -> Seq<T> {
    Seq::new(
        table.len(),
        |i: int|
            if start <= i < start + outs.len() {
                outs[i - start]
            } else {
                table[i]
            },
    )
}

/// Starting from `states[0]`, the effect handed the slots `i0, i0 + 1, ...`
/// of the window `i0..=i1` in turn, each while the table stood as `table`
/// with the earlier results written in, returned `outs` and went through the
/// states `states`.
pub open spec fn steps_produce<T, E: FxFn<T>>(
    table: Seq<T>,
    i0: int,
    i1: int,
    states: Seq<E>,
    outs: Seq<T>,
) -> bool {
    &&& states.len() == outs.len() + 1
    &&& forall|k: int|
        0 <= k < outs.len() ==> #[trigger] states[k].produces(
            i0 + k,
            i0,
            i1,
            overwrite(table, i0, outs.take(k)),
            outs[k],
            states[k + 1],
        )
}

/// Running `effect` over the window `i0..=i1` of `before` can give `after`:
/// each slot of the window holds what the effect returned for it, the slots
/// handed out once each in increasing order, and the rest are as they were.
pub open spec fn section_result<T, E: FxFn<T>>(
    before: Seq<T>,
    effect: E,
    i0: int,
    i1: int,
    after: Seq<T>,
) -> bool {
    exists|states: Seq<E>, outs: Seq<T>|
        outs.len() == i1 - i0 + 1 && states.len() > 0 && states[0] == effect && steps_produce(
            before,
            i0,
            i1,
            states,
            outs,
        ) && after == overwrite(before, i0, outs)
}

/// One section of the pipeline: the factory of its effect, absent where the
/// section names an effect that is not registered, and its window of table
/// slots `i0..=i1`.
pub struct FxPass<F> {
    pub factory: Option<F>,
    pub i0: usize,
    pub i1: usize,
}

/// What became of one section.
#[derive(Debug, Clone, Copy, PartialEq, Eq, Structural)]
pub enum FxOutcome {
    /// Its effect rewrote the slots of its window.
    Applied,
    /// It names no registered effect, and was skipped.
    UnknownEffect,
    /// Its window holds no more than one slot, and it was skipped.
    DegenerateRange,
}

/// A section runs when its effect is registered and its window ends after it
/// starts; an unknown effect is reported before an empty window.
pub open spec fn outcome_of<F>(pass: FxPass<F>) -> FxOutcome {
    if pass.factory is None {
        FxOutcome::UnknownEffect
    } else if pass.i1 <= pass.i0 {
        FxOutcome::DegenerateRange
    } else {
        FxOutcome::Applied
    }
}

/// The tables `tables[0], tables[1], ...` are those that the sections
/// `passes` leave one after the other, in the order given: section `j`, where
/// it runs, run by the effect `effects[j]` over its window of `tables[j]`,
/// and leaving it unchanged where it does not run.
pub open spec fn passes_result<T, E: FxFn<T>, F>(
    passes: Seq<FxPass<F>>,
    effects: Seq<E>,
    tables: Seq<Seq<T>>,
) -> bool {
    &&& tables.len() == passes.len() + 1
    &&& forall|j: int|
        0 <= j < passes.len() ==> if outcome_of(#[trigger] passes[j]) == FxOutcome::Applied {
            section_result(
                tables[j],
                effects[j],
                passes[j].i0 as int,
                passes[j].i1 as int,
                tables[j + 1],
            )
        } else {
            tables[j + 1] == tables[j]
        }
}

/// `effects[j]` is an instance that the factory of section `j` made, for each
/// section that runs.
pub open spec fn made_by<E, F: Fn() -> E>(passes: Seq<FxPass<F>>, effects: Seq<E>) -> bool {
    &&& effects.len() == passes.len()
    &&& forall|j: int|
        0 <= j < passes.len() && outcome_of(#[trigger] passes[j]) == FxOutcome::Applied
            ==> call_ensures(passes[j].factory->Some_0, (), effects[j])
}

/// Slot `i` lies in the window of a section that runs.
pub open spec fn covered<F>(passes: Seq<FxPass<F>>, i: int) -> bool {
    exists|j: int|
        0 <= j < passes.len() && outcome_of(#[trigger] passes[j]) == FxOutcome::Applied
            && passes[j].i0 <= i <= passes[j].i1
}

/// Decides whether a section runs, or why it is skipped.
pub fn classify<F>(pass: &FxPass<F>) -> (r: FxOutcome)
    ensures
        r == outcome_of(*pass),
{
    match &pass.factory {
        None => FxOutcome::UnknownEffect,
        Some(_) => {
            if pass.i1 <= pass.i0 {
                FxOutcome::DegenerateRange
            } else {
                FxOutcome::Applied
            }
        },
    }
}

/// Runs `effect` over the slots `i0..=i1` of `table`, in increasing order,
/// writing each result back before the next sample is handed out. No slot
/// outside the window changes.
pub fn apply_section<T: Copy, E: FxFn<T>>(table: &mut Vec<T>, effect: &mut E, i0: usize, i1: usize)
    requires
        i0 <= i1 < old(table).len(),
    ensures
        section_result(old(table)@, *old(effect), i0 as int, i1 as int, final(table)@),
        final(table).len() == old(table).len(),
        forall|i: int|
            0 <= i < old(table).len() && !(i0 <= i <= i1) ==> #[trigger] final(table)[i]
                == old(table)[i],
{
    let ghost start = table@;
    let ghost mut states: Seq<E> = seq![*effect];
    let ghost mut outs: Seq<T> = Seq::empty();
    let mut index = i0;
    while index <= i1
        invariant
            i0 <= index <= i1 + 1,
            i1 < table.len(),
            table.len() == old(table).len(),
            start == old(table)@,
            outs.len() == index - i0,
            states.len() > 0,
            states[0] == *old(effect),
            states.last() == *effect,
            steps_produce(start, i0 as int, i1 as int, states, outs),
            table@ == overwrite(start, i0 as int, outs),
        decreases i1 + 1 - index,
    {
        let ghost before = table@;
        let ghost state = *effect;
        assert(outs =~= outs.take(outs.len() as int));
        let context = FxContext {
            index,
            i0,
            i1,
            value: table[index],
            array: table.as_slice(),
            init: index == i0,
        };
        let v = effect.step(context);
        table.set(index, v);
        proof {
            let k = outs.len() as int;
            let grown = outs.push(v);
            let chain = states.push(*effect);
            assert(grown.take(k) =~= outs);
            assert(table@ =~= overwrite(start, i0 as int, grown));
            assert forall|m: int| 0 <= m < grown.len() implies #[trigger] chain[m].produces(
                i0 + m,
                i0 as int,
                i1 as int,
                overwrite(start, i0 as int, grown.take(m)),
                grown[m],
                chain[m + 1],
            ) by {
                if m < k {
                    assert(grown.take(m) =~= outs.take(m));
                    assert(chain[m] == states[m]);
                    assert(chain[m + 1] == states[m + 1]);
                } else {
                    assert(chain[m] == state);
                }
            }
            outs = grown;
            states = chain;
        }
        index = index + 1;
    }
    assert forall|i: int|
        0 <= i < old(table).len() && !(i0 <= i <= i1) implies #[trigger] table[i] == old(table)[i] by {
    }
}

/// Applies the sections in the order given, each with a fresh instance of its
/// effect; a later section overrides an earlier one where their windows
/// overlap. A section that is skipped changes nothing and does not stop the
/// sections after it. Returns what became of each section.
pub fn apply_fxs<T: Copy, E: FxFn<T>, F: Fn() -> E>(
    table: &mut Vec<T>,
    passes: &Vec<FxPass<F>>,
) -> (outcomes: Vec<FxOutcome>)
    requires
        forall|j: int|
            0 <= j < passes.len() && outcome_of(#[trigger] passes[j]) == FxOutcome::Applied
                ==> passes[j].i1 < old(table).len(),
        forall|j: int|
            0 <= j < passes.len() ==> match #[trigger] passes[j].factory {
                Some(f) => call_requires(f, ()),
                None => true,
            },
    ensures
        final(table).len() == old(table).len(),
        outcomes.len() == passes.len(),
        forall|j: int| 0 <= j < passes.len() ==> #[trigger] outcomes[j] == outcome_of(passes[j]),
        exists|effects: Seq<E>, tables: Seq<Seq<T>>|
            made_by(passes@, effects) && passes_result(passes@, effects, tables) && tables[0]
                == old(table)@ && tables.last() == final(table)@,
        forall|i: int|
            0 <= i < old(table).len() && !covered(passes@, i) ==> #[trigger] final(table)[i]
                == old(table)[i],
{
    let mut outcomes: Vec<FxOutcome> = Vec::new();
    let ghost mut effects: Seq<E> = Seq::empty();
    let ghost mut tables: Seq<Seq<T>> = seq![table@];
    let mut j: usize = 0;
    while j < passes.len()
        invariant
            j <= passes.len(),
            table.len() == old(table).len(),
            outcomes.len() == j,
            forall|k: int|
                0 <= k < passes.len() && outcome_of(#[trigger] passes[k]) == FxOutcome::Applied
                    ==> passes[k].i1 < old(table).len(),
            forall|k: int|
                0 <= k < passes.len() ==> match #[trigger] passes[k].factory {
                    Some(f) => call_requires(f, ()),
                    None => true,
                },
            forall|k: int| 0 <= k < j ==> #[trigger] outcomes[k] == outcome_of(passes[k]),
            made_by(passes@.take(j as int), effects),
            passes_result(passes@.take(j as int), effects, tables),
            tables[0] == old(table)@,
            tables.last() == table@,
            forall|i: int|
                0 <= i < old(table).len() && !covered(passes@.take(j as int), i)
                    ==> #[trigger] table[i] == old(table)[i],
        decreases passes.len() - j,
    {
        let pass = &passes[j];
        let outcome = classify(pass);
        let ghost before = table@;
        let ghost mut made: E = vstd::pervasive::arbitrary();
        if let Some(factory) = &pass.factory {
            if outcome == FxOutcome::Applied {
                let mut effect = factory();
                proof {
                    made = effect;
                }
                apply_section(table, &mut effect, pass.i0, pass.i1);
            }
        }
        proof {
            let done = passes@.take(j as int);
            let next = passes@.take(j + 1);
            let grown = effects.push(made);
            let seen = tables.push(table@);
            assert(next[j as int] == passes[j as int]);
            assert forall|k: int|
                0 <= k < next.len() && outcome_of(#[trigger] next[k]) == FxOutcome::Applied
                    implies call_ensures(next[k].factory->Some_0, (), grown[k]) by {
                if k < j {
                    assert(next[k] == done[k]);
                }
            }
            assert forall|k: int| 0 <= k < next.len() implies if outcome_of(
                #[trigger] next[k],
            ) == FxOutcome::Applied {
                section_result(
                    seen[k],
                    grown[k],
                    next[k].i0 as int,
                    next[k].i1 as int,
                    seen[k + 1],
                )
            } else {
                seen[k + 1] == seen[k]
            } by {
                if k < j {
                    assert(next[k] == done[k]);
                    assert(seen[k] == tables[k]);
                    assert(seen[k + 1] == tables[k + 1]);
                }
            }
            assert forall|i: int|
                0 <= i < old(table).len() && !covered(next, i) implies #[trigger] table[i]
                    == old(table)[i] by {
                if covered(done, i) {
                    let k = choose|k: int|
                        0 <= k < done.len() && outcome_of(#[trigger] done[k])
                            == FxOutcome::Applied && done[k].i0 <= i <= done[k].i1;
                    assert(next[k] == done[k]);
                }
                assert(table[i] == before[i]);
            }
            effects = grown;
            tables = seen;
        }
        outcomes.push(outcome);
        j = j + 1;
    }
    assert(passes@.take(passes.len() as int) =~= passes@);
    assert(made_by(passes@, effects) && passes_result(passes@, effects, tables));
    outcomes
}

/// A section that does not run, for want of a registered effect or of a
/// window, leaves what leaving it out of the list would: the tables that the
/// other sections leave, in order, are those of the list without it.
pub proof fn lemma_skipped_section_is_neutral<T, E: FxFn<T>, F>(
    passes: Seq<FxPass<F>>,
    effects: Seq<E>,
    tables: Seq<Seq<T>>,
    k: int,
)
    requires
        0 <= k < passes.len(),
        effects.len() == passes.len(),
        outcome_of(passes[k]) != FxOutcome::Applied,
        passes_result(passes, effects, tables),
    ensures
        passes_result(passes.remove(k), effects.remove(k), tables.remove(k + 1)),
        tables.remove(k + 1)[0] == tables[0],
        tables.remove(k + 1).last() == tables.last(),
{
    let p = passes.remove(k);
    let e = effects.remove(k);
    let t = tables.remove(k + 1);
    assert(tables[k + 1] == tables[k]);
    assert forall|j: int| 0 <= j < p.len() implies if outcome_of(#[trigger] p[j])
        == FxOutcome::Applied {
        section_result(t[j], e[j], p[j].i0 as int, p[j].i1 as int, t[j + 1])
    } else {
        t[j + 1] == t[j]
    } by {
        if j < k {
            assert(p[j] == passes[j]);
            assert(t[j] == tables[j]);
            if j + 1 <= k {
                assert(t[j + 1] == tables[j + 1]);
            }
        } else {
            assert(p[j] == passes[j + 1]);
            assert(e[j] == effects[j + 1]);
            assert(t[j + 1] == tables[j + 2]);
            if j == k {
                assert(t[j] == tables[k]);
            } else {
                assert(t[j] == tables[j + 1]);
            }
        }
    }
}

} // verus!
