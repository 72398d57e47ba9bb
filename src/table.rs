use vstd::prelude::*;

verus! {

/// A curve needs at least two nodes; this many were given.
#[derive(Debug, Clone, Copy, PartialEq, Eq)]
pub struct ConfigError {
    pub node_count: usize,
}

/// Node slots are in ascending order, as the nodes of a curve are.
pub open spec fn slots_sorted(slots: Seq<usize>) -> bool {
    forall|a: int, b: int| 0 <= a <= b < slots.len() ==> slots[a] <= slots[b]
}

/// First table slot that segment `k` (from node `k` to node `k + 1`) writes:
/// the slot of node `k`.
pub open spec fn segment_start(slots: Seq<usize>, k: int) -> int {
    slots[k] as int
}

/// The last of the segments `0..=m` that writes slot `i`: the largest `j <= m`
/// whose start lies at or before `i`, and the first segment for the slots
/// before the first node.
pub open spec fn owner_upto(slots: Seq<usize>, i: int, m: int) -> int
    decreases m,
{
    if m <= 0 {
        0
    } else if segment_start(slots, m) <= i {
        m
    } else {
        owner_upto(slots, i, m - 1)
    }
}

/// Once segments `0..=m` are written, slot `i` holds `v`: the value of node
/// `j` where `i` is the start of its owning segment `j` (or lies before the
/// first node, `j` then being 0), else a value that easing segment `j` gives
/// at slot `i`.
pub open spec fn slot_holds<T, F: Fn(usize, usize) -> T>(
    values: Seq<T>,
    slots: Seq<usize>,
    ease: F,
    i: int,
    m: int,
    v: T,
) -> bool {
    let j = owner_upto(slots, i, m);
    if i <= segment_start(slots, j) {
        v == values[j]
    } else {
        call_ensures(ease, (j as usize, i as usize), v)
    }
}

/// `t` is the sample table of a curve whose nodes have the values `values` and
/// lie at the slots `slots`, with `len` slots in all: each slot up to the last
/// node's holds what the last segment covering it wrote there, and each slot
/// after it holds the last node's value.
pub open spec fn is_sample_table<T, F: Fn(usize, usize) -> T>(
    values: Seq<T>,
    slots: Seq<usize>,
    len: int,
    ease: F,
    t: Seq<T>,
) -> bool {
    let last = slots.len() - 1;
    &&& t.len() == len
    &&& forall|i: int|
        0 <= i < len ==> if i > slots[last] {
            #[trigger] t[i] == values[last]
        } else {
            slot_holds(values, slots, ease, i, slots.len() - 2, t[i])
        }
}

/// Each call of `ease` gives one value: the same query always has the same answer.
pub open spec fn easing_is_function<T, F: Fn(usize, usize) -> T>(ease: F) -> bool {
    forall|k: usize, i: usize, a: T, b: T|
        call_ensures(ease, (k, i), a) && call_ensures(ease, (k, i), b) ==> a == b
}

proof fn lemma_owner_step(slots: Seq<usize>, i: int, m: int)
    requires
        0 < m,
        i < segment_start(slots, m),
    ensures
        owner_upto(slots, i, m) == owner_upto(slots, i, m - 1),
{
}

proof fn lemma_owner_of_first_slots(slots: Seq<usize>, i: int, m: int)
    requires
        slots_sorted(slots),
        m < slots.len(),
        slots.len() >= 2,
        i < slots[1],
    ensures
        owner_upto(slots, i, m) == 0,
    decreases m,
{
    if m > 0 {
        lemma_owner_of_first_slots(slots, i, m - 1);
    }
}

/// Building the table twice from the same node values, slots and length gives
/// the same table, provided that the easing answers each query the same way.
pub proof fn lemma_table_deterministic<T, F: Fn(usize, usize) -> T>(
    values: Seq<T>,
    slots: Seq<usize>,
    len: int,
    ease: F,
    a: Seq<T>,
    b: Seq<T>,
)
    requires
        easing_is_function(ease),
        slots.len() == values.len(),
        slots.len() >= 2,
        is_sample_table(values, slots, len, ease, a),
        is_sample_table(values, slots, len, ease, b),
    ensures
        a == b,
{
    assert forall|i: int| 0 <= i < len implies a[i] == b[i] by {
        let j = owner_upto(slots, i, slots.len() - 2);
        if i <= slots[slots.len() - 1] && i > segment_start(slots, j) {
            assert(call_ensures(ease, (j as usize, i as usize), a[i]));
            assert(call_ensures(ease, (j as usize, i as usize), b[i]));
        }
    }
    assert(a =~= b);
}

/// The table holds the first node's value at every slot up to the first
/// node's own when the second node lies at a later slot, and ends with the
/// last node's value when the last node lies before the last slot.
pub proof fn lemma_table_ends<T, F: Fn(usize, usize) -> T>(
    values: Seq<T>,
    slots: Seq<usize>,
    len: int,
    ease: F,
    t: Seq<T>,
)
    requires
        slots.len() == values.len(),
        slots.len() >= 2,
        slots_sorted(slots),
        slots[slots.len() - 1] < len,
        is_sample_table(values, slots, len, ease, t),
    ensures
        slots[0] < slots[1] ==> forall|i: int| 0 <= i <= slots[0] ==> #[trigger] t[i] == values[0],
        slots[slots.len() - 1] < len - 1 ==> t[len - 1] == values[values.len() - 1],
{
    if slots[0] < slots[1] {
        assert forall|i: int| 0 <= i <= slots[0] implies #[trigger] t[i] == values[0] by {
            lemma_owner_of_first_slots(slots, i, slots.len() - 2);
            assert(slot_holds(values, slots, ease, i, slots.len() - 2, t[i]));
        }
    }
    if slots[slots.len() - 1] < len - 1 {
        assert(t[len - 1] == values[values.len() - 1]);
    }
}

/// Builds the sample table of a curve: `values[k]` is the value of node `k`,
/// `slots[k]` the table slot at which it lies (nodes in ascending order of
/// time), `len` the number of slots, and `ease(k, i)` the value that segment
/// `k` takes at the time of slot `i`.
///
/// The slots up to the first node's get its value. Segment by segment, the
/// first slot of each gets its starting node's value and the others up to the
/// next node's slot get the eased value; the slots after the last node get its
/// value. Fewer than two nodes form no curve.
pub fn build_table<T: Copy, F: Fn(usize, usize) -> T>(
    values: &Vec<T>,
    slots: &Vec<usize>,
    len: usize,
    ease: F,
) -> (r: Result<Vec<T>, ConfigError>)
    requires
        slots.len() == values.len(),
        slots_sorted(slots@),
        values.len() >= 2 ==> slots[values.len() - 1] < len,
        forall|k: usize, i: usize| k + 1 < values.len() && i < len ==> call_requires(ease, (k, i)),
    ensures
        r is Err <==> values.len() < 2,
        r matches Err(e) ==> e.node_count == values.len(),
        r matches Ok(t) ==> is_sample_table(values@, slots@, len as int, ease, t@),
{
    let n = values.len();
    if n < 2 {
        return Err(ConfigError { node_count: n });
    }
    let first = slots[0];
    let mut table: Vec<T> = Vec::new();
    table.push(values[0]);
    while table.len() <= first
        invariant
            n == values.len(),
            n == slots.len(),
            2 <= n,
            first == slots[0],
            slots_sorted(slots@),
            slots[n - 1] < len,
            1 <= table.len() <= first + 1,
            forall|i: int| 0 <= i < table.len() ==> #[trigger] table[i] == values[0],
        decreases first + 1 - table.len(),
    {
        table.push(values[0]);
    }
    let mut k: usize = 0;
    while k + 1 < n
        invariant
            n == values.len(),
            n == slots.len(),
            2 <= n,
            k + 1 <= n,
            slots_sorted(slots@),
            slots[n - 1] < len,
            forall|a: usize, b: usize| a + 1 < n && b < len ==> call_requires(ease, (a, b)),
            table.len() == segment_start(slots@, k as int) + 1,
            forall|i: int|
                0 <= i < table.len() ==> slot_holds(
                    values@,
                    slots@,
                    ease,
                    i,
                    k - 1,
                    #[trigger] table[i],
                ),
        decreases n - k,
    {
        let start = table.len() - 1;
        table.set(start, values[k]);
        assert forall|i: int| 0 <= i < table.len() implies slot_holds(
            values@,
            slots@,
            ease,
            i,
            k as int,
            #[trigger] table[i],
        ) by {
            if i < start {
                if k > 0 {
                    lemma_owner_step(slots@, i, k as int);
                }
            }
        }
        let end = slots[k + 1];
        let mut i = start + 1;
        while i <= end
            invariant
                n == values.len(),
                n == slots.len(),
                k + 1 < n,
                start == segment_start(slots@, k as int),
                start <= end,
                end == slots[k + 1],
                end < len,
                start + 1 <= i <= end + 1,
                table.len() == i,
                forall|a: usize, b: usize| a + 1 < n && b < len ==> call_requires(ease, (a, b)),
                forall|j: int|
                    0 <= j < table.len() ==> slot_holds(
                        values@,
                        slots@,
                        ease,
                        j,
                        k as int,
                        #[trigger] table[j],
                    ),
            decreases end + 1 - i,
        {
            let v = ease(k, i);
            table.push(v);
            i = i + 1;
        }
        k = k + 1;
    }
    let last = values[n - 1];
    while table.len() < len
        invariant
            n == values.len(),
            n == slots.len(),
            2 <= n,
            k == n - 1,
            slots[n - 1] < len,
            last == values[n - 1],
            slots[n - 1] + 1 <= table.len() <= len,
            forall|i: int|
                0 <= i < table.len() ==> if i > slots[n - 1] {
                    #[trigger] table[i] == values[n - 1]
                } else {
                    slot_holds(values@, slots@, ease, i, n - 2, table[i])
                },
        decreases len - table.len(),
    {
        table.push(last);
    }
    Ok(table)
}

} // verus!
