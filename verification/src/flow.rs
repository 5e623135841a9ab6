//! The backward dataflow at the heart of liveness analysis, over bit rows.
//!
//! Each line of a function has a row of bits, one per temporary: the
//! temporaries it reads, those live before it and those live after it. The
//! solver grows the live rows from nothing until no pass over the lines
//! changes a bit, which leaves the least rows that satisfy the equations.

use vstd::prelude::*;

verus! {

/// The rows of a bit matrix.
pub open spec fn rows(m: Seq<Vec<bool>>) -> Seq<Seq<bool>> {
    Seq::new(m.len(), |i: int| m[i]@)
}

/// A dataflow problem: per line the bits read, the bit written and the lines that may run next.
pub struct Flow {
    pub used: Seq<Seq<bool>>,
    pub defs: Seq<Option<usize>>,
    pub succ: Seq<Seq<usize>>,
    pub width: int,
}

/// Whether bit `x` is live before the `k`-th successor in `succ`.
pub open spec fn fed(succ: Seq<usize>, ins: Seq<Seq<bool>>, x: int, k: int) -> bool {
    ins[succ[k] as int][x]
}

/// Whether bit `x` is live before some successor in `succ`.
pub open spec fn out_bit(succ: Seq<usize>, ins: Seq<Seq<bool>>, x: int) -> bool {
    exists|k: int| 0 <= k < succ.len() && #[trigger] fed(succ, ins, x, k)
}

/// Whether bit `x` is read by a line, or live after it and not written by it.
pub open spec fn in_bit(used: Seq<bool>, def: Option<usize>, out: Seq<bool>, x: int) -> bool {
    used[x] || (out[x] && def != Some(x as usize))
}

/// Whether every bit of `a` is a bit of `b`.
pub open spec fn below(a: Seq<Seq<bool>>, b: Seq<Seq<bool>>) -> bool {
    forall|i: int, x: int| 0 <= i < a.len() && 0 <= x < a[i].len() && #[trigger] a[i][x] ==> b[i][x]
}

impl Flow {
    pub open spec fn lines(self) -> int {
        self.used.len() as int
    }

    pub open spec fn wf(self) -> bool {
        &&& self.width >= 0
        &&& self.defs.len() == self.lines()
        &&& self.succ.len() == self.lines()
        &&& forall|i: int| 0 <= i < self.lines() ==> (#[trigger] self.used[i]).len() == self.width
        &&& forall|i: int, k: int|
            0 <= i < self.lines() && 0 <= k < self.succ[i].len() ==> (#[trigger] self.succ[i][k])
                < self.lines()
    }

    /// Whether `m` has a row of the problem's width for every line.
    pub open spec fn shaped(self, m: Seq<Seq<bool>>) -> bool {
        &&& m.len() == self.lines()
        &&& forall|i: int| 0 <= i < self.lines() ==> (#[trigger] m[i]).len() == self.width
    }

    /// Every bit live before line `i` is there for a reason.
    pub open spec fn in_justified(self, ins: Seq<Seq<bool>>, outs: Seq<Seq<bool>>, i: int) -> bool {
        forall|x: int|
            0 <= x < self.width && #[trigger] ins[i][x] ==> in_bit(self.used[i], self.defs[i], outs[i], x)
    }

    /// Every bit that should be live before line `i` is.
    pub open spec fn in_closed(self, ins: Seq<Seq<bool>>, outs: Seq<Seq<bool>>, i: int) -> bool {
        forall|x: int|
            0 <= x < self.width && in_bit(self.used[i], self.defs[i], outs[i], x) ==> #[trigger] ins[i][x]
    }

    /// Every bit live after line `i` is live before one of its successors.
    pub open spec fn out_justified(self, ins: Seq<Seq<bool>>, outs: Seq<Seq<bool>>, i: int) -> bool {
        forall|x: int| 0 <= x < self.width && #[trigger] outs[i][x] ==> out_bit(self.succ[i], ins, x)
    }

    /// Every bit live before a successor of line `i` is live after line `i`.
    pub open spec fn out_closed(self, ins: Seq<Seq<bool>>, outs: Seq<Seq<bool>>, i: int) -> bool {
        forall|x: int, k: int|
            0 <= x < self.width && 0 <= k < self.succ[i].len() && #[trigger] fed(self.succ[i], ins, x, k)
                ==> outs[i][x]
    }

    pub open spec fn justified(self, ins: Seq<Seq<bool>>, outs: Seq<Seq<bool>>) -> bool {
        forall|i: int|
            0 <= i < self.lines() ==> #[trigger] self.in_justified(ins, outs, i) && self.out_justified(
                ins,
                outs,
                i,
            )
    }

    pub open spec fn closed_from(self, ins: Seq<Seq<bool>>, outs: Seq<Seq<bool>>, from: int) -> bool {
        forall|i: int|
            from <= i < self.lines() ==> #[trigger] self.in_closed(ins, outs, i) && self.out_closed(
                ins,
                outs,
                i,
            )
    }

    /// Whether the rows satisfy both equations on every line.
    pub open spec fn fixpoint(self, ins: Seq<Seq<bool>>, outs: Seq<Seq<bool>>) -> bool {
        &&& self.shaped(ins)
        &&& self.shaped(outs)
        &&& self.justified(ins, outs)
        &&& self.closed_from(ins, outs, 0)
    }

    /// Whether the rows lie below every solution of the equations.
    pub open spec fn sound(self, ins: Seq<Seq<bool>>, outs: Seq<Seq<bool>>) -> bool {
        forall|ins2: Seq<Seq<bool>>, outs2: Seq<Seq<bool>>| #[trigger]
            self.fixpoint(ins2, outs2) ==> below(ins, ins2) && below(outs, outs2)
    }

    /// What the solver keeps true of its rows between steps.
    pub open spec fn steady(self, ins: Seq<Seq<bool>>, outs: Seq<Seq<bool>>) -> bool {
        &&& self.shaped(ins)
        &&& self.shaped(outs)
        &&& self.justified(ins, outs)
        &&& self.sound(ins, outs)
    }

    /// Whether the rows are the least solution of the equations.
    pub open spec fn least_fixpoint(self, ins: Seq<Seq<bool>>, outs: Seq<Seq<bool>>) -> bool {
        self.fixpoint(ins, outs) && self.sound(ins, outs)
    }
}

/// The number of clear bits of a row.
pub open spec fn unset(row: Seq<bool>) -> nat
    decreases row.len(),
{
    if row.len() == 0 {
        0
    } else {
        unset(row.drop_last()) + if row.last() {
            0nat
        } else {
            1nat
        }
    }
}

/// The number of clear bits of a matrix.
pub open spec fn unset_all(m: Seq<Seq<bool>>) -> nat
    decreases m.len(),
{
    if m.len() == 0 {
        0
    } else {
        unset_all(m.drop_last()) + unset(m.last())
    }
}

/// Setting a bit takes one from the number of clear bits if the bit was clear.
pub proof fn lemma_unset_raise(row: Seq<bool>, x: int)
    requires
        0 <= x < row.len(),
    ensures
        unset(row.update(x, true)) + (if row[x] { 0nat } else { 1nat }) == unset(row),
    decreases row.len(),
{
    let next = row.update(x, true);
    if x == row.len() - 1 {
        assert(next.drop_last() =~= row.drop_last());
    } else {
        lemma_unset_raise(row.drop_last(), x);
        assert(next.drop_last() =~= row.drop_last().update(x, true));
    }
}

/// A row with a clear bit count above zero has a clear bit, and one of none has none.
pub proof fn lemma_unset_witness(row: Seq<bool>)
    ensures
        unset(row) > 0 ==> exists|x: int| 0 <= x < row.len() && !row[x],
        unset(row) == 0 ==> forall|x: int| 0 <= x < row.len() ==> row[x],
        unset(row) <= row.len(),
    decreases row.len(),
{
    if row.len() > 0 {
        let head = row.drop_last();
        lemma_unset_witness(head);
        if unset(row) > 0 {
            if !row.last() {
                assert(!row[row.len() - 1]);
            } else {
                let x = choose|x: int| 0 <= x < head.len() && !head[x];
                assert(!row[x]);
            }
        }
        if unset(row) == 0 {
            assert forall|x: int| 0 <= x < row.len() implies row[x] by {
                if x < head.len() {
                    assert(head[x]);
                }
            }
        }
    }
}

proof fn lemma_unset_all_update(m: Seq<Seq<bool>>, i: int, row: Seq<bool>)
    requires
        0 <= i < m.len(),
    ensures
        unset_all(m.update(i, row)) + unset(m[i]) == unset_all(m) + unset(row),
    decreases m.len(),
{
    let next = m.update(i, row);
    if i == m.len() - 1 {
        assert(next.drop_last() =~= m.drop_last());
    } else {
        lemma_unset_all_update(m.drop_last(), i, row);
        assert(next.drop_last() =~= m.drop_last().update(i, row));
    }
}

/// A matrix of `lines` rows of `width` clear bits.
pub fn blank(lines: usize, width: usize) -> (m: Vec<Vec<bool>>)
    ensures
        m@.len() == lines,
        forall|i: int| 0 <= i < lines ==> (#[trigger] m@[i])@.len() == width,
        forall|i: int, x: int| 0 <= i < lines && 0 <= x < width ==> !(#[trigger] m@[i]@[x]),
{
    let mut m: Vec<Vec<bool>> = Vec::new();
    let mut i: usize = 0;
    while i < lines
        invariant
            i <= lines,
            m@.len() == i,
            forall|j: int| 0 <= j < i ==> (#[trigger] m@[j])@.len() == width,
            forall|j: int, x: int| 0 <= j < i && 0 <= x < width ==> !(#[trigger] m@[j]@[x]),
        decreases lines - i,
    {
        let mut row: Vec<bool> = Vec::new();
        let mut x: usize = 0;
        while x < width
            invariant
                x <= width,
                row@.len() == x,
                forall|y: int| 0 <= y < x ==> !(#[trigger] row@[y]),
            decreases width - x,
        {
            row.push(false);
            x += 1;
        }
        m.push(row);
        i += 1;
    }
    m
}

/// Sets in `row` every bit that is set in `other`. Returns whether a bit changed.
fn absorb(row: &mut Vec<bool>, other: &Vec<bool>) -> (changed: bool)
    requires
        old(row)@.len() == other@.len(),
    ensures
        final(row)@.len() == old(row)@.len(),
        forall|x: int|
            0 <= x < other@.len() ==> #[trigger] final(row)@[x] == (old(row)@[x] || other@[x]),
        !changed ==> final(row)@ == old(row)@,
        unset(final(row)@) <= unset(old(row)@),
        changed ==> unset(final(row)@) < unset(old(row)@),
{
    let mut changed = false;
    let mut x: usize = 0;
    while x < other.len()
        invariant
            x <= other@.len(),
            row@.len() == other@.len(),
            row@.len() == old(row)@.len(),
            forall|y: int| 0 <= y < x ==> #[trigger] row@[y] == (old(row)@[y] || other@[y]),
            forall|y: int| x <= y < other@.len() ==> #[trigger] row@[y] == old(row)@[y],
            !changed ==> row@ == old(row)@,
            unset(row@) <= unset(old(row)@),
            changed ==> unset(row@) < unset(old(row)@),
        decreases other@.len() - x,
    {
        if other[x] && !row[x] {
            proof {
                lemma_unset_raise(row@, x as int);
            }
            row[x] = true;
            changed = true;
        }
        x += 1;
    }
    changed
}

/// Sets in `row` every bit that is read, or live after the line and not
/// written by it. Returns whether a bit changed.
fn refresh(row: &mut Vec<bool>, used: &Vec<bool>, def: Option<usize>, out: &Vec<bool>) -> (changed:
    bool)
    requires
        old(row)@.len() == used@.len(),
        out@.len() == used@.len(),
    ensures
        final(row)@.len() == old(row)@.len(),
        forall|x: int|
            0 <= x < used@.len() ==> #[trigger] final(row)@[x] == (old(row)@[x] || in_bit(
                used@,
                def,
                out@,
                x,
            )),
        !changed ==> final(row)@ == old(row)@,
        unset(final(row)@) <= unset(old(row)@),
        changed ==> unset(final(row)@) < unset(old(row)@),
{
    let mut changed = false;
    let mut x: usize = 0;
    while x < used.len()
        invariant
            x <= used@.len(),
            row@.len() == used@.len(),
            out@.len() == used@.len(),
            row@.len() == old(row)@.len(),
            forall|y: int|
                0 <= y < x ==> #[trigger] row@[y] == (old(row)@[y] || in_bit(used@, def, out@, y)),
            forall|y: int| x <= y < used@.len() ==> #[trigger] row@[y] == old(row)@[y],
            !changed ==> row@ == old(row)@,
            unset(row@) <= unset(old(row)@),
            changed ==> unset(row@) < unset(old(row)@),
        decreases used@.len() - x,
    {
        let written = match def {
            Some(d) => d == x,
            None => false,
        };
        if (used[x] || (out[x] && !written)) && !row[x] {
            proof {
                lemma_unset_raise(row@, x as int);
            }
            row[x] = true;
            changed = true;
        }
        x += 1;
    }
    changed
}

/// The problem that the solver's arguments describe.
pub open spec fn flow_of(
    used: Seq<Vec<bool>>,
    defs: Seq<Option<usize>>,
    succ: Seq<Vec<usize>>,
    width: int,
) -> Flow {
    Flow { used: rows(used), defs, succ: Seq::new(succ.len(), |i: int| succ[i]@), width }
}

proof fn lemma_absorb_step(
    p: Flow,
    ins: Seq<Seq<bool>>,
    outs: Seq<Seq<bool>>,
    i: int,
    k: int,
    row: Seq<bool>,
)
    requires
        p.wf(),
        p.steady(ins, outs),
        0 <= i < p.lines(),
        0 <= k < p.succ[i].len(),
        row.len() == p.width,
        forall|x: int|
            0 <= x < p.width ==> #[trigger] row[x] == (outs[i][x] || ins[p.succ[i][k] as int][x]),
    ensures
        p.steady(ins, outs.update(i, row)),
{
    let next = outs.update(i, row);
    let s = p.succ[i][k] as int;
    assert forall|j: int| 0 <= j < p.lines() implies #[trigger] p.in_justified(ins, next, j)
        && p.out_justified(ins, next, j) by {
        assert(p.in_justified(ins, outs, j) && p.out_justified(ins, outs, j));
        if j == i {
            assert forall|x: int| 0 <= x < p.width && #[trigger] next[j][x] implies out_bit(
                p.succ[j],
                ins,
                x,
            ) by {
                if !outs[i][x] {
                    assert(row[x]);
                    assert(fed(p.succ[i], ins, x, k));
                }
            }
            assert forall|x: int| 0 <= x < p.width && #[trigger] ins[j][x] implies in_bit(
                p.used[j],
                p.defs[j],
                next[j],
                x,
            ) by {
                assert(row[x] == (outs[i][x] || ins[s][x]));
            }
        }
    }
    assert forall|ins2: Seq<Seq<bool>>, outs2: Seq<Seq<bool>>| #[trigger]
        p.fixpoint(ins2, outs2) implies below(ins, ins2) && below(next, outs2) by {
        assert(below(ins, ins2) && below(outs, outs2));
        assert(p.closed_from(ins2, outs2, 0));
        assert(p.in_closed(ins2, outs2, i));
        assert(p.out_closed(ins2, outs2, i));
        assert forall|j: int, x: int|
            0 <= j < next.len() && 0 <= x < next[j].len() && #[trigger] next[j][x] implies outs2[j][x] by {
            if j == i && !outs[i][x] {
                assert(row[x]);
                assert(ins[s][x]);
                assert(ins2[s][x]);
                assert(fed(p.succ[i], ins2, x, k));
            } else {
                assert(outs[j][x]);
            }
        }
    }
}

proof fn lemma_refresh_step(
    p: Flow,
    ins: Seq<Seq<bool>>,
    outs: Seq<Seq<bool>>,
    i: int,
    row: Seq<bool>,
)
    requires
        p.wf(),
        p.steady(ins, outs),
        0 <= i < p.lines(),
        row.len() == p.width,
        forall|x: int|
            0 <= x < p.width ==> #[trigger] row[x] == (ins[i][x] || in_bit(
                p.used[i],
                p.defs[i],
                outs[i],
                x,
            )),
    ensures
        p.steady(ins.update(i, row), outs),
        p.in_closed(ins.update(i, row), outs, i),
{
    let next = ins.update(i, row);
    assert forall|j: int| 0 <= j < p.lines() implies #[trigger] p.in_justified(next, outs, j)
        && p.out_justified(next, outs, j) by {
        assert(p.in_justified(ins, outs, j) && p.out_justified(ins, outs, j));
        assert forall|x: int| 0 <= x < p.width && #[trigger] outs[j][x] implies out_bit(
            p.succ[j],
            next,
            x,
        ) by {
            let k = choose|k: int| 0 <= k < p.succ[j].len() && #[trigger] fed(p.succ[j], ins, x, k);
            let s = p.succ[j][k] as int;
            if s == i {
                assert(row[x] == (ins[i][x] || in_bit(p.used[i], p.defs[i], outs[i], x)));
            }
            assert(fed(p.succ[j], next, x, k));
        }
        if j == i {
            assert forall|x: int| 0 <= x < p.width && #[trigger] next[j][x] implies in_bit(
                p.used[j],
                p.defs[j],
                outs[j],
                x,
            ) by {
                assert(row[x] == (ins[i][x] || in_bit(p.used[i], p.defs[i], outs[i], x)));
            }
        }
    }
    assert forall|ins2: Seq<Seq<bool>>, outs2: Seq<Seq<bool>>| #[trigger]
        p.fixpoint(ins2, outs2) implies below(next, ins2) && below(outs, outs2) by {
        assert(below(ins, ins2) && below(outs, outs2));
        assert(p.closed_from(ins2, outs2, 0));
        assert(p.in_closed(ins2, outs2, i));
        assert forall|j: int, x: int|
            0 <= j < next.len() && 0 <= x < next[j].len() && #[trigger] next[j][x] implies ins2[j][x] by {
            if j == i && !ins[i][x] {
                assert(row[x]);
                assert(in_bit(p.used[i], p.defs[i], outs[i], x));
                if outs[i][x] {
                    assert(outs2[i][x]);
                }
                assert(in_bit(p.used[i], p.defs[i], outs2[i], x));
            } else {
                assert(ins[j][x]);
            }
        }
    }
    assert forall|x: int|
        0 <= x < p.width && in_bit(p.used[i], p.defs[i], outs[i], x) implies #[trigger] next[i][x] by {
        assert(row[x] == (ins[i][x] || in_bit(p.used[i], p.defs[i], outs[i], x)));
    }
}

/// One step of a pass: brings line `i` up to date, its live-out row first,
/// then its live-in row. Returns whether a bit changed.
fn sweep_line(
    used: &Vec<Vec<bool>>,
    defs: &Vec<Option<usize>>,
    succ: &Vec<Vec<usize>>,
    ins: &mut Vec<Vec<bool>>,
    outs: &mut Vec<Vec<bool>>,
    i: usize,
    Ghost(p): Ghost<Flow>,
) -> (changed: bool)
    requires
        p == flow_of(used@, defs@, succ@, p.width),
        p.wf(),
        i < p.lines(),
        p.steady(rows(old(ins)@), rows(old(outs)@)),
    ensures
        p.steady(rows(final(ins)@), rows(final(outs)@)),
        unset_all(rows(final(ins)@)) + unset_all(rows(final(outs)@)) <= unset_all(rows(old(ins)@))
            + unset_all(rows(old(outs)@)),
        changed ==> unset_all(rows(final(ins)@)) + unset_all(rows(final(outs)@)) < unset_all(
            rows(old(ins)@),
        ) + unset_all(rows(old(outs)@)),
        !changed ==> rows(final(ins)@) == rows(old(ins)@) && rows(final(outs)@) == rows(old(outs)@),
        !changed ==> p.in_closed(rows(final(ins)@), rows(final(outs)@), i as int) && p.out_closed(
            rows(final(ins)@),
            rows(final(outs)@),
            i as int,
        ),
{
    let mut changed = false;
    let mut k: usize = 0;
    assert(p.succ[i as int] == succ@[i as int]@);
    while k < succ[i].len()
        invariant
            p == flow_of(used@, defs@, succ@, p.width),
            p.wf(),
            i < p.lines(),
            k <= succ@[i as int]@.len(),
            p.succ[i as int] == succ@[i as int]@,
            rows(ins@) == rows(old(ins)@),
            p.steady(rows(ins@), rows(outs@)),
            unset_all(rows(outs@)) <= unset_all(rows(old(outs)@)),
            changed ==> unset_all(rows(outs@)) < unset_all(rows(old(outs)@)),
            !changed ==> rows(outs@) == rows(old(outs)@),
            !changed ==> forall|x: int, k2: int|
                0 <= x < p.width && 0 <= k2 < k && #[trigger] fed(p.succ[i as int], rows(ins@), x, k2)
                    ==> rows(outs@)[i as int][x],
        decreases succ@[i as int]@.len() - k,
    {
        let s = succ[i][k];
        let ghost before = rows(outs@);
        assert(p.succ[i as int][k as int] == s);
        assert(rows(ins@)[s as int].len() == p.width);
        assert(before[i as int].len() == p.width);
        let c = absorb(&mut outs[i], &ins[s]);
        proof {
            let row = outs@[i as int]@;
            assert(rows(outs@) =~= before.update(i as int, row));
            assert forall|x: int| 0 <= x < p.width implies #[trigger] row[x] == (before[i as int][x]
                || rows(ins@)[p.succ[i as int][k as int] as int][x]) by {}
            lemma_absorb_step(p, rows(ins@), before, i as int, k as int, row);
            lemma_unset_all_update(before, i as int, row);
            if !c {
                assert(rows(outs@) =~= before);
            }
            if !changed && !c {
                assert forall|x: int, k2: int|
                    0 <= x < p.width && 0 <= k2 < k + 1 && #[trigger] fed(
                        p.succ[i as int],
                        rows(ins@),
                        x,
                        k2,
                    ) implies rows(outs@)[i as int][x] by {
                    if k2 == k {
                        assert(row[x] == (before[i as int][x] || rows(ins@)[s as int][x]));
                    }
                }
            }
        }
        changed = changed || c;
        k += 1;
    }
    let ghost before = rows(ins@);
    assert(rows(outs@)[i as int].len() == p.width);
    assert(before[i as int].len() == p.width);
    assert(p.used[i as int] == used@[i as int]@);
    assert(p.used[i as int].len() == p.width);
    let c = refresh(&mut ins[i], &used[i], defs[i], &outs[i]);
    proof {
        let row = ins@[i as int]@;
        assert(rows(ins@) =~= before.update(i as int, row));
        assert forall|x: int| 0 <= x < p.width implies #[trigger] row[x] == (before[i as int][x]
            || in_bit(p.used[i as int], p.defs[i as int], rows(outs@)[i as int], x)) by {}
        lemma_refresh_step(p, before, rows(outs@), i as int, row);
        lemma_unset_all_update(before, i as int, row);
        if !c {
            assert(rows(ins@) =~= before);
        }
    }
    changed || c
}

/// One backward pass over the lines. Returns whether a bit changed.
fn sweep(
    used: &Vec<Vec<bool>>,
    defs: &Vec<Option<usize>>,
    succ: &Vec<Vec<usize>>,
    ins: &mut Vec<Vec<bool>>,
    outs: &mut Vec<Vec<bool>>,
    Ghost(p): Ghost<Flow>,
) -> (changed: bool)
    requires
        p == flow_of(used@, defs@, succ@, p.width),
        p.wf(),
        p.steady(rows(old(ins)@), rows(old(outs)@)),
    ensures
        p.steady(rows(final(ins)@), rows(final(outs)@)),
        unset_all(rows(final(ins)@)) + unset_all(rows(final(outs)@)) <= unset_all(rows(old(ins)@))
            + unset_all(rows(old(outs)@)),
        changed ==> unset_all(rows(final(ins)@)) + unset_all(rows(final(outs)@)) < unset_all(
            rows(old(ins)@),
        ) + unset_all(rows(old(outs)@)),
        !changed ==> p.fixpoint(rows(final(ins)@), rows(final(outs)@)),
{
    let mut changed = false;
    let mut i: usize = used.len();
    while i > 0
        invariant
            p == flow_of(used@, defs@, succ@, p.width),
            p.wf(),
            i <= p.lines(),
            p.lines() == used@.len(),
            p.steady(rows(ins@), rows(outs@)),
            unset_all(rows(ins@)) + unset_all(rows(outs@)) <= unset_all(rows(old(ins)@)) + unset_all(
                rows(old(outs)@),
            ),
            changed ==> unset_all(rows(ins@)) + unset_all(rows(outs@)) < unset_all(rows(old(ins)@))
                + unset_all(rows(old(outs)@)),
            !changed ==> p.closed_from(rows(ins@), rows(outs@), i as int),
        decreases i,
    {
        i -= 1;
        let ghost ins0 = rows(ins@);
        let ghost outs0 = rows(outs@);
        let c = sweep_line(used, defs, succ, ins, outs, i, Ghost(p));
        proof {
            if !changed && !c {
                assert forall|j: int| i <= j < p.lines() implies #[trigger] p.in_closed(
                    rows(ins@),
                    rows(outs@),
                    j,
                ) && p.out_closed(rows(ins@), rows(outs@), j) by {
                    if j > i {
                        assert(p.in_closed(ins0, outs0, j) && p.out_closed(ins0, outs0, j));
                    }
                }
            }
        }
        changed = changed || c;
    }
    changed
}

/// Solves the problem: the least rows that satisfy both equations on every line.
pub fn solve(
    used: &Vec<Vec<bool>>,
    defs: &Vec<Option<usize>>,
    succ: &Vec<Vec<usize>>,
    width: usize,
) -> (r: (Vec<Vec<bool>>, Vec<Vec<bool>>))
    requires
        flow_of(used@, defs@, succ@, width as int).wf(),
    ensures
        flow_of(used@, defs@, succ@, width as int).least_fixpoint(rows(r.0@), rows(r.1@)),
{
    let ghost p = flow_of(used@, defs@, succ@, width as int);
    let mut ins = blank(used.len(), width);
    let mut outs = blank(used.len(), width);
    proof {
        assert forall|i: int| 0 <= i < p.lines() implies #[trigger] p.in_justified(
            rows(ins@),
            rows(outs@),
            i,
        ) && p.out_justified(rows(ins@), rows(outs@), i) by {}
        assert forall|ins2: Seq<Seq<bool>>, outs2: Seq<Seq<bool>>| #[trigger]
            p.fixpoint(ins2, outs2) implies below(rows(ins@), ins2) && below(rows(outs@), outs2) by {}
    }
    let mut changed = true;
    while changed
        invariant
            p == flow_of(used@, defs@, succ@, width as int),
            p.wf(),
            p.steady(rows(ins@), rows(outs@)),
            !changed ==> p.fixpoint(rows(ins@), rows(outs@)),
        decreases
            unset_all(rows(ins@)) + unset_all(rows(outs@)) + (if changed { 1nat } else { 0nat }),
    {
        changed = sweep(used, defs, succ, &mut ins, &mut outs, Ghost(p));
    }
    (ins, outs)
}

} // verus!
