//! What packing keeps of the instructions.
use vstd::prelude::*;

use crate::keys::{account_set, lemma_fewer_accounts, readonly_set, signer_set};
use crate::model::{InstructionView, Pubkey};
use crate::packing::{
    DEFAULT_COMPUTE_BUDGET, Span, all_fit_alone, candidate, consecutive, cut, fits, fitting,
    full_run, full_runs, groups, packed_runs, prelude_of, span_group,
};
use crate::sdk::{
    COMPUTE_BUDGET_PROGRAM, compilable, le_bytes, limit_instruction, price_instruction,
};
use crate::signing::listable;
use crate::wire::{instructions_len, lemma_instructions_len_add, packed_len};

verus! {

/// A run within one that fits, fits.
pub proof fn lemma_fits_within(
    prelude: Seq<InstructionView>,
    ixs: Seq<InstructionView>,
    payer: Pubkey,
    outer: Span,
    inner: Span,
)
    requires
        0 <= outer.0 <= inner.0 <= inner.1 <= outer.1 <= ixs.len(),
        fits(span_group(prelude, ixs, outer), payer),
    ensures
        fits(span_group(prelude, ixs, inner), payer),
{
    let more = span_group(prelude, ixs, outer);
    let fewer = span_group(prelude, ixs, inner);
    assert forall|i: int| 0 <= i < fewer.len() implies more.contains(#[trigger] fewer[i]) by {
        if i < prelude.len() {
            assert(more[i] == fewer[i]);
        } else {
            assert(more[i + inner.0 - outer.0] == fewer[i]);
        }
    }
    lemma_fewer_accounts(fewer, more, payer);
    let middle = ixs.subrange(inner.0, inner.1);
    let front = ixs.subrange(outer.0, inner.0);
    let back = ixs.subrange(inner.1, outer.1);
    assert(ixs.subrange(outer.0, outer.1) =~= (front + middle) + back);
    lemma_instructions_len_add(prelude, middle);
    lemma_instructions_len_add(front, middle);
    lemma_instructions_len_add(front + middle, back);
    lemma_instructions_len_add(prelude, ixs.subrange(outer.0, outer.1));
    assert(packed_len(fewer, payer) <= packed_len(more, payer));
}

/// Some full runs have been found, and the instructions from `start` up to `n` are the next run so
/// far.
pub open spec fn under_way(
    prelude: Seq<InstructionView>,
    ixs: Seq<InstructionView>,
    payer: Pubkey,
    runs: Seq<Span>,
    start: int,
    n: int,
) -> bool {
    &&& consecutive(runs, start)
    &&& forall|i: int|
        0 <= i < runs.len() ==> full_run(prelude, ixs, payer, #[trigger] runs[i])
    &&& if n == 0 {
        start == 0 && runs.len() == 0
    } else {
        &&& 0 <= start < n <= ixs.len()
        &&& fits(span_group(prelude, ixs, (start, n)), payer)
    }
}

/// A run that starts where the others end follows them.
proof fn lemma_consecutive_push(runs: Seq<Span>, start: int, run: Span)
    requires
        consecutive(runs, start),
        run.0 == start,
    ensures
        consecutive(runs.push(run), run.1),
{
    let more = runs.push(run);
    assert forall|i: int, j: int| 0 <= i && j == i + 1 && j < more.len() implies (
    #[trigger] more[i]).1 == (#[trigger] more[j]).0 by {
        if j == runs.len() {
            assert(more[i] == runs.last());
        } else {
            assert(runs[i].1 == runs[j].0);
        }
    }
    assert(more.last() == run);
}

/// Where the instruction after the present run does not fit, the run is full.
pub proof fn lemma_run_ends(
    prelude: Seq<InstructionView>,
    ixs: Seq<InstructionView>,
    payer: Pubkey,
    runs: Seq<Span>,
    start: int,
    n: int,
)
    requires
        under_way(prelude, ixs, payer, runs, start, n),
        0 < n < ixs.len(),
        !fits(span_group(prelude, ixs, (start, n + 1)), payer),
        fits(prelude.push(ixs[n]), payer),
    ensures
        under_way(prelude, ixs, payer, runs.push((start, n)), n, n + 1),
{
    lemma_consecutive_push(runs, start, (start, n));
    assert(span_group(prelude, ixs, (n, n + 1)) =~= prelude.push(ixs[n]));
}

/// The full runs can be found.
proof fn lemma_find_runs(
    prelude: Seq<InstructionView>,
    ixs: Seq<InstructionView>,
    payer: Pubkey,
    n: int,
) -> (r: (Seq<Span>, int))
    requires
        all_fit_alone(prelude, ixs, payer),
        0 <= n <= ixs.len(),
    ensures
        under_way(prelude, ixs, payer, r.0, r.1, n),
    decreases n,
{
    if n == 0 {
        (Seq::empty(), 0)
    } else {
        let (runs, start) = lemma_find_runs(prelude, ixs, payer, n - 1);
        assert(span_group(prelude, ixs, (n - 1, n)) =~= prelude.push(ixs[n - 1]));
        assert(fits(prelude.push(ixs[n - 1]), payer));
        if n == 1 || fits(span_group(prelude, ixs, (start, n)), payer) {
            (runs, start)
        } else {
            lemma_run_ends(prelude, ixs, payer, runs, start, n - 1);
            (runs.push((start, n - 1)), n - 1)
        }
    }
}

/// At the end the last run is full too.
proof fn lemma_last_run(
    prelude: Seq<InstructionView>,
    ixs: Seq<InstructionView>,
    payer: Pubkey,
    runs: Seq<Span>,
    start: int,
)
    requires
        under_way(prelude, ixs, payer, runs, start, ixs.len() as int),
    ensures
        ixs.len() == 0 ==> full_runs(prelude, ixs, payer, runs),
        ixs.len() > 0 ==> full_runs(prelude, ixs, payer, runs.push((start, ixs.len() as int))),
{
    if ixs.len() > 0 {
        let more = runs.push((start, ixs.len() as int));
        lemma_consecutive_push(runs, start, (start, ixs.len() as int));
    }
}

/// Two full runs that start alike end alike.
proof fn lemma_same_run(
    prelude: Seq<InstructionView>,
    ixs: Seq<InstructionView>,
    payer: Pubkey,
    a: Span,
    b: Span,
)
    requires
        full_run(prelude, ixs, payer, a),
        full_run(prelude, ixs, payer, b),
        a.0 == b.0,
    ensures
        a == b,
{
    if a.1 < b.1 {
        lemma_fits_within(prelude, ixs, payer, b, (a.0, a.1 + 1));
    }
    if b.1 < a.1 {
        lemma_fits_within(prelude, ixs, payer, a, (b.0, b.1 + 1));
    }
}

/// Full runs from the start on are the first of any cut into full runs.
proof fn lemma_same_runs(
    prelude: Seq<InstructionView>,
    ixs: Seq<InstructionView>,
    payer: Pubkey,
    runs: Seq<Span>,
    end: int,
    all: Seq<Span>,
    n: int,
)
    requires
        consecutive(runs, end),
        forall|i: int| 0 <= i < runs.len() ==> full_run(prelude, ixs, payer, #[trigger] runs[i]),
        full_runs(prelude, ixs, payer, all),
        0 <= n <= runs.len(),
    ensures
        n <= all.len(),
        forall|i: int| 0 <= i < n ==> #[trigger] runs[i] == all[i],
    decreases n,
{
    if n > 0 {
        lemma_same_runs(prelude, ixs, payer, runs, end, all, n - 1);
        assert(full_run(prelude, ixs, payer, runs[n - 1]));
        if n > 1 {
            assert(runs[n - 2].1 == runs[n - 1].0);
            assert(runs[n - 2] == all[n - 2]);
            if n - 1 < all.len() {
                assert(all[n - 2].1 == all[n - 1].0);
            }
        }
        assert(n - 1 < all.len());
        assert(full_run(prelude, ixs, payer, all[n - 1]));
        lemma_same_run(prelude, ixs, payer, runs[n - 1], all[n - 1]);
    }
}

/// Instructions that all fit alone can be cut into full runs in exactly one way.
pub proof fn law_cut_is_unique(
    prelude: Seq<InstructionView>,
    ixs: Seq<InstructionView>,
    payer: Pubkey,
    runs: Seq<Span>,
)
    requires
        all_fit_alone(prelude, ixs, payer),
    ensures
        full_runs(prelude, ixs, payer, runs) <==> runs == cut(prelude, ixs, payer),
{
    let n = ixs.len() as int;
    let (found, start) = lemma_find_runs(prelude, ixs, payer, n);
    lemma_last_run(prelude, ixs, payer, found, start);
    let all = cut(prelude, ixs, payer);
    assert(full_runs(prelude, ixs, payer, all));
    if full_runs(prelude, ixs, payer, runs) {
        lemma_same_runs(prelude, ixs, payer, runs, n, all, runs.len() as int);
        lemma_same_runs(prelude, ixs, payer, all, n, runs, all.len() as int);
        assert(runs =~= all);
    }
}

/// The instructions that are kept are those that fit alone: all of them fit, one that does not is
/// not among them, and if all the instructions fit, all are kept.
pub proof fn law_fitting_are_kept(
    prelude: Seq<InstructionView>,
    ixs: Seq<InstructionView>,
    payer: Pubkey,
)
    ensures
        all_fit_alone(prelude, fitting(prelude, ixs, payer), payer),
        forall|k: int|
            0 <= k < ixs.len() && fits(prelude.push(ixs[k]), payer) ==> fitting(
                prelude,
                ixs,
                payer,
            ).contains(#[trigger] ixs[k]),
        all_fit_alone(prelude, ixs, payer) ==> fitting(prelude, ixs, payer) == ixs,
    decreases ixs.len(),
{
    reveal(Seq::filter);
    let kept = fitting(prelude, ixs, payer);
    if ixs.len() > 0 {
        let shorter = ixs.drop_last();
        let before = fitting(prelude, shorter, payer);
        law_fitting_are_kept(prelude, shorter, payer);
        assert forall|k: int| 0 <= k < kept.len() implies fits(
            prelude.push(#[trigger] kept[k]),
            payer,
        ) by {
            if k < before.len() {
                assert(kept[k] == before[k]);
            }
        }
        assert forall|k: int|
            0 <= k < ixs.len() && fits(prelude.push(ixs[k]), payer) implies kept.contains(
            #[trigger] ixs[k],
        ) by {
            if k < shorter.len() {
                assert(shorter[k] == ixs[k]);
                let q = choose|q: int| 0 <= q < before.len() && before[q] == ixs[k];
                assert(kept[q] == ixs[k]);
            } else {
                assert(kept[kept.len() - 1] == ixs[k]);
            }
        }
        if all_fit_alone(prelude, ixs, payer) {
            assert forall|k: int| 0 <= k < shorter.len() implies fits(
                prelude.push(#[trigger] shorter[k]),
                payer,
            ) by {
                assert(shorter[k] == ixs[k]);
            }
            assert(fits(prelude.push(ixs[ixs.len() - 1]), payer));
            assert(kept =~= ixs);
        }
    } else {
        assert(kept =~= ixs);
    }
}

/// The first `i` instructions are being packed: `n` of them fit, which are the first of all that
/// do; some full runs have been found, and those from `start` up to `n` are the next run so far.
pub open spec fn pack_under_way(
    prelude: Seq<InstructionView>,
    ixs: Seq<InstructionView>,
    payer: Pubkey,
    runs: Seq<Span>,
    start: int,
    n: int,
    i: int,
) -> bool {
    let kept = fitting(prelude, ixs, payer);
    &&& 0 <= i <= ixs.len()
    &&& n <= kept.len()
    &&& fitting(prelude, ixs.take(i), payer) == kept.take(n)
    &&& under_way(prelude, kept, payer, runs, start, n)
}

/// Packing begins with nothing.
pub proof fn lemma_pack_begins(
    prelude: Seq<InstructionView>,
    ixs: Seq<InstructionView>,
    payer: Pubkey,
)
    ensures
        pack_under_way(prelude, ixs, payer, Seq::empty(), 0, 0, 0),
        span_group(prelude, fitting(prelude, ixs, payer), (0, 0)) == prelude,
{
    reveal(Seq::filter);
    let kept = fitting(prelude, ixs, payer);
    assert(fitting(prelude, ixs.take(0), payer) =~= kept.take(0));
    assert(span_group(prelude, kept, (0, 0)) =~= prelude);
}

/// The runs of the first instructions that fit are those that have been found, and the present one.
proof fn lemma_cut_so_far(
    prelude: Seq<InstructionView>,
    ixs: Seq<InstructionView>,
    payer: Pubkey,
    runs: Seq<Span>,
    start: int,
    n: int,
)
    requires
        all_fit_alone(prelude, ixs, payer),
        under_way(prelude, ixs, payer, runs, start, n),
        0 < n <= ixs.len(),
    ensures
        cut(prelude, ixs.take(n), payer) == runs.push((start, n)),
        span_group(prelude, ixs.take(n), (start, n)) == span_group(prelude, ixs, (start, n)),
{
    let first = ixs.take(n);
    let all = runs.push((start, n));
    assert forall|k: int| 0 <= k < first.len() implies fits(
        prelude.push(#[trigger] first[k]),
        payer,
    ) by {
        assert(first[k] == ixs[k]);
    }
    lemma_consecutive_push(runs, start, (start, n));
    assert(span_group(prelude, first, (start, n)) =~= span_group(prelude, ixs, (start, n)));
    assert forall|i: int| 0 <= i < all.len() implies full_run(
        prelude,
        first,
        payer,
        #[trigger] all[i],
    ) by {
        if i < runs.len() {
            let run = runs[i];
            assert(all[i] == run);
            assert(full_run(prelude, ixs, payer, run));
            lemma_run_before(prelude, ixs, payer, runs, start, i);
            assert(span_group(prelude, first, run) =~= span_group(prelude, ixs, run));
            assert(span_group(prelude, first, (run.0, run.1 + 1)) =~= span_group(
                prelude,
                ixs,
                (run.0, run.1 + 1),
            ));
        }
    }
    law_cut_is_unique(prelude, first, payer, all);
}

/// A run that has been found ends before the present one starts.
proof fn lemma_run_before(
    prelude: Seq<InstructionView>,
    ixs: Seq<InstructionView>,
    payer: Pubkey,
    runs: Seq<Span>,
    start: int,
    i: int,
)
    requires
        consecutive(runs, start),
        forall|k: int| 0 <= k < runs.len() ==> full_run(prelude, ixs, payer, #[trigger] runs[k]),
        0 <= i < runs.len(),
    ensures
        runs[i].1 <= start,
    decreases runs.len() - i,
{
    if i < runs.len() - 1 {
        assert(runs[i].1 == runs[i + 1].0);
        assert(full_run(prelude, ixs, payer, runs[i + 1]));
        lemma_run_before(prelude, ixs, payer, runs, start, i + 1);
    }
}

/// The group that is tried is the present one and the next instruction.
pub proof fn lemma_candidate(
    prelude: Seq<InstructionView>,
    ixs: Seq<InstructionView>,
    payer: Pubkey,
    runs: Seq<Span>,
    start: int,
    n: int,
    i: int,
)
    requires
        pack_under_way(prelude, ixs, payer, runs, start, n, i),
        i < ixs.len(),
    ensures
        candidate(prelude, ixs, payer, i) == span_group(
            prelude,
            fitting(prelude, ixs, payer),
            (start, n),
        ).push(ixs[i]),
{
    let kept = fitting(prelude, ixs, payer);
    law_fitting_are_kept(prelude, ixs, payer);
    if n == 0 {
        assert(span_group(prelude, kept, (0, 0)) =~= prelude);
        assert(kept.take(n).len() == 0);
    } else {
        lemma_cut_so_far(prelude, kept, payer, runs, start, n);
        let all = runs.push((start, n));
        assert(all.last() == (start, n));
        assert(groups(prelude, ixs.take(i), payer).last() == span_group(
            prelude,
            kept.take(n),
            (start, n),
        ));
    }
}

/// What the next instruction adds to those that fit.
proof fn lemma_next_fitting(
    prelude: Seq<InstructionView>,
    ixs: Seq<InstructionView>,
    payer: Pubkey,
    n: int,
    i: int,
)
    requires
        0 <= i < ixs.len(),
        0 <= n <= fitting(prelude, ixs, payer).len(),
        fitting(prelude, ixs.take(i), payer) == fitting(prelude, ixs, payer).take(n),
    ensures
        fits(prelude.push(ixs[i]), payer) ==> n < fitting(prelude, ixs, payer).len() && fitting(
            prelude,
            ixs,
            payer,
        )[n] == ixs[i] && fitting(prelude, ixs.take(i + 1), payer) == fitting(
            prelude,
            ixs,
            payer,
        ).take(n + 1),
        !fits(prelude.push(ixs[i]), payer) ==> fitting(prelude, ixs.take(i + 1), payer) == fitting(
            prelude,
            ixs,
            payer,
        ).take(n),
{
    let pred = |ix: InstructionView| fits(prelude.push(ix), payer);
    let kept = fitting(prelude, ixs, payer);
    let more = ixs.take(i + 1);
    assert(more =~= ixs.take(i).push(ixs[i]));
    ixs.take(i).lemma_filter_push(ixs[i], pred);
    let rest = ixs.skip(i + 1);
    assert(ixs =~= more + rest);
    Seq::filter_distributes_over_add(more, rest, pred);
    let first = fitting(prelude, more, payer);
    assert(kept == first + rest.filter(pred));
    if fits(prelude.push(ixs[i]), payer) {
        assert(first == kept.take(n).push(ixs[i]));
        assert(first.len() == n + 1);
        assert(kept[n] == first[n]);
        assert(first =~= kept.take(n + 1));
    }
}

/// Where the next instruction fits into the present group, it joins it.
pub proof fn lemma_joins(
    prelude: Seq<InstructionView>,
    ixs: Seq<InstructionView>,
    payer: Pubkey,
    runs: Seq<Span>,
    start: int,
    n: int,
    i: int,
)
    requires
        pack_under_way(prelude, ixs, payer, runs, start, n, i),
        i < ixs.len(),
        fits(
            span_group(prelude, fitting(prelude, ixs, payer), (start, n)).push(ixs[i]),
            payer,
        ),
    ensures
        pack_under_way(prelude, ixs, payer, runs, start, n + 1, i + 1),
        span_group(prelude, fitting(prelude, ixs, payer), (start, n)).push(ixs[i]) == span_group(
            prelude,
            fitting(prelude, ixs, payer),
            (start, n + 1),
        ),
{
    let kept = fitting(prelude, ixs, payer);
    let run = kept.subrange(start, n).push(ixs[i]);
    let count = run.len() as int;
    assert(span_group(prelude, run, (0, count)) =~= span_group(prelude, kept, (start, n)).push(
        ixs[i],
    ));
    lemma_fits_within(prelude, run, payer, (0, count), (count - 1, count));
    assert(span_group(prelude, run, (count - 1, count)) =~= prelude.push(ixs[i]));
    lemma_next_fitting(prelude, ixs, payer, n, i);
    assert(span_group(prelude, kept, (start, n)).push(ixs[i]) =~= span_group(
        prelude,
        kept,
        (start, n + 1),
    ));
}

/// Where the next instruction fits, but not into the present group, it opens a new one.
pub proof fn lemma_opens(
    prelude: Seq<InstructionView>,
    ixs: Seq<InstructionView>,
    payer: Pubkey,
    runs: Seq<Span>,
    start: int,
    n: int,
    i: int,
)
    requires
        pack_under_way(prelude, ixs, payer, runs, start, n, i),
        i < ixs.len(),
        !fits(
            span_group(prelude, fitting(prelude, ixs, payer), (start, n)).push(ixs[i]),
            payer,
        ),
        fits(prelude.push(ixs[i]), payer),
    ensures
        pack_under_way(prelude, ixs, payer, runs.push((start, n)), n, n + 1, i + 1),
        prelude.push(ixs[i]) == span_group(
            prelude,
            fitting(prelude, ixs, payer),
            (n, n + 1),
        ),
        n > 0,
{
    let kept = fitting(prelude, ixs, payer);
    lemma_next_fitting(prelude, ixs, payer, n, i);
    if n == 0 {
        assert(span_group(prelude, kept, (0, 0)).push(ixs[i]) =~= prelude.push(ixs[i]));
    }
    assert(span_group(prelude, kept, (start, n)).push(ixs[i]) =~= span_group(
        prelude,
        kept,
        (start, n + 1),
    ));
    lemma_run_ends(prelude, kept, payer, runs, start, n);
    assert(prelude.push(ixs[i]) =~= span_group(prelude, kept, (n, n + 1)));
}

/// Where the next instruction does not fit alone, it is left out.
pub proof fn lemma_drops(
    prelude: Seq<InstructionView>,
    ixs: Seq<InstructionView>,
    payer: Pubkey,
    runs: Seq<Span>,
    start: int,
    n: int,
    i: int,
)
    requires
        pack_under_way(prelude, ixs, payer, runs, start, n, i),
        i < ixs.len(),
        !fits(prelude.push(ixs[i]), payer),
    ensures
        pack_under_way(prelude, ixs, payer, runs, start, n, i + 1),
{
    lemma_next_fitting(prelude, ixs, payer, n, i);
}

/// The runs that have been found are the first that become transactions.
pub proof fn lemma_packed_runs(
    prelude: Seq<InstructionView>,
    ixs: Seq<InstructionView>,
    payer: Pubkey,
    runs: Seq<Span>,
    start: int,
    n: int,
    i: int,
)
    requires
        pack_under_way(prelude, ixs, payer, runs, start, n, i),
        n > 0,
    ensures
        runs.len() < packed_runs(prelude, ixs, payer).len(),
        forall|k: int|
            0 <= k < runs.len() ==> #[trigger] runs[k] == packed_runs(prelude, ixs, payer)[k]
                && groups(prelude, ixs, payer)[k] == span_group(
                prelude,
                fitting(prelude, ixs, payer),
                runs[k],
            ) && groups(prelude, ixs, payer)[k] != prelude,
{
    let kept = fitting(prelude, ixs, payer);
    law_fitting_are_kept(prelude, ixs, payer);
    let all = packed_runs(prelude, ixs, payer);
    law_cut_is_unique(prelude, kept, payer, all);
    lemma_same_runs(prelude, kept, payer, runs, start, all, runs.len() as int);
    let k = runs.len() as int;
    if k > 0 {
        assert(runs[k - 1] == all[k - 1]);
        assert(runs[k - 1].1 == start);
    }
    assert forall|k: int| 0 <= k < runs.len() implies #[trigger] runs[k] == all[k] && groups(
        prelude,
        ixs,
        payer,
    )[k] == span_group(prelude, kept, runs[k]) && groups(prelude, ixs, payer)[k] != prelude by {
        assert(full_run(prelude, kept, payer, runs[k]));
        assert(span_group(prelude, kept, runs[k]).len() > prelude.len());
    }
}

/// Once all the instructions have been packed, the runs that have been found and the present one
/// become the transactions.
pub proof fn lemma_pack_ends(
    prelude: Seq<InstructionView>,
    ixs: Seq<InstructionView>,
    payer: Pubkey,
    runs: Seq<Span>,
    start: int,
    n: int,
)
    requires
        pack_under_way(prelude, ixs, payer, runs, start, n, ixs.len() as int),
    ensures
        n == fitting(prelude, ixs, payer).len(),
        full_runs(
            prelude,
            fitting(prelude, ixs, payer),
            payer,
            packed_runs(prelude, ixs, payer),
        ),
        n == 0 ==> groups(prelude, ixs, payer) == seq![prelude] && span_group(
            prelude,
            fitting(prelude, ixs, payer),
            (start, n),
        ) == prelude,
        n > 0 ==> packed_runs(prelude, ixs, payer) == runs.push((start, n)) && groups(
            prelude,
            ixs,
            payer,
        ).len() == runs.len() + 1,
        n > 0 ==> forall|k: int|
            0 <= k <= runs.len() ==> #[trigger] groups(prelude, ixs, payer)[k] == span_group(
                prelude,
                fitting(prelude, ixs, payer),
                runs.push((start, n))[k],
            ) && groups(prelude, ixs, payer)[k].len() > prelude.len(),
{
    let kept = fitting(prelude, ixs, payer);
    assert(ixs.take(ixs.len() as int) =~= ixs);
    assert(kept.take(n).len() == n);
    law_fitting_are_kept(prelude, ixs, payer);
    law_cut_is_unique(prelude, kept, payer, packed_runs(prelude, ixs, payer));
    if n == 0 {
        assert(span_group(prelude, kept, (start, n)) =~= prelude);
    } else {
        lemma_cut_so_far(prelude, kept, payer, runs, start, n);
        assert(kept.take(n) =~= kept);
        let all = runs.push((start, n));
        assert forall|k: int| 0 <= k <= runs.len() implies (#[trigger] groups(
            prelude,
            ixs,
            payer,
        )[k]) == span_group(prelude, kept, all[k]) && groups(prelude, ixs, payer)[k].len()
            > prelude.len() by {
            assert(full_run(prelude, kept, payer, all[k]));
        }
    }
}

/// The prelude alone can be compiled and written down, and is within the limits of the network.
pub proof fn lemma_prelude(compute_budget: u32, priority_fee: u64, payer: Pubkey)
    ensures
        compilable(prelude_of(compute_budget, priority_fee), payer),
        listable(prelude_of(compute_budget, priority_fee), payer),
        fits(prelude_of(compute_budget, priority_fee), payer),
{
    let prelude = prelude_of(compute_budget, priority_fee);
    let signers = signer_set(prelude, payer);
    let readonly = readonly_set(prelude, payer);
    let program = COMPUTE_BUDGET_PROGRAM;
    assert forall|i: int| 0 <= i < prelude.len() implies (#[trigger] prelude[i]).accounts.len() == 0
        && prelude[i].program_id == program by {}
    assert(signers =~= set![payer]);
    assert(readonly.subset_of(set![program]));
    vstd::set_lib::lemma_len_subset(readonly, set![program]);
    let accounts = account_set(prelude, payer);
    assert(accounts.subset_of(set![payer, program]));
    vstd::set_lib::lemma_len_subset(accounts, set![payer, program]);
    reveal_with_fuel(le_bytes, 9);
    assert(limit_instruction(compute_budget).data.len() == 5);
    assert(price_instruction(priority_fee).data.len() == 9);
    reveal_with_fuel(instructions_len, 3);
    assert(instructions_len(prelude) <= 20);
}

/// Every transaction but that of the prelude alone holds the prelude and then a run of consecutive
/// fitting instructions, at least one; the runs follow one another without a gap, from the first
/// fitting instruction to the last.
pub proof fn law_groups_are_runs(
    prelude: Seq<InstructionView>,
    ixs: Seq<InstructionView>,
    payer: Pubkey,
)
    ensures
        groups(prelude, ixs, payer).len() > 0,
        consecutive(
            packed_runs(prelude, ixs, payer),
            fitting(prelude, ixs, payer).len() as int,
        ),
        fitting(prelude, ixs, payer).len() > 0 ==> groups(prelude, ixs, payer).len() == packed_runs(
            prelude,
            ixs,
            payer,
        ).len(),
        fitting(prelude, ixs, payer).len() > 0 ==> forall|i: int|
            #![trigger packed_runs(prelude, ixs, payer)[i]]
            0 <= i < packed_runs(prelude, ixs, payer).len() ==> {
                let run = packed_runs(prelude, ixs, payer)[i];
                let kept = fitting(prelude, ixs, payer);
                &&& 0 <= run.0 < run.1 <= kept.len()
                &&& groups(prelude, ixs, payer)[i] == span_group(prelude, kept, run)
                &&& groups(prelude, ixs, payer)[i] != prelude
            },
{
    let kept = fitting(prelude, ixs, payer);
    let runs = packed_runs(prelude, ixs, payer);
    law_fitting_are_kept(prelude, ixs, payer);
    law_cut_is_unique(prelude, kept, payer, runs);
    if kept.len() > 0 {
        assert forall|i: int| #![trigger runs[i]] 0 <= i < runs.len() implies 0 <= runs[i].0
            < runs[i].1 <= kept.len() && groups(prelude, ixs, payer)[i] != prelude by {
            assert(full_run(prelude, kept, payer, runs[i]));
            assert(groups(prelude, ixs, payer)[i].len() > prelude.len());
        }
    }
}

/// The runs, taken one after the other, are the instructions up to `end`.
proof fn lemma_flatten(ixs: Seq<InstructionView>, runs: Seq<Span>, end: int)
    requires
        consecutive(runs, end),
        0 <= end <= ixs.len(),
        forall|i: int|
            0 <= i < runs.len() ==> 0 <= (#[trigger] runs[i]).0 <= runs[i].1 <= ixs.len(),
    ensures
        runs.map_values(|s: Span| ixs.subrange(s.0, s.1)).flatten() == ixs.take(end),
    decreases runs.len(),
{
    let bodies = runs.map_values(|s: Span| ixs.subrange(s.0, s.1));
    bodies.lemma_flatten_and_flatten_alt_are_equivalent();
    if runs.len() == 0 {
        assert(ixs.take(end) =~= Seq::empty());
        assert(bodies =~= Seq::empty());
    } else {
        let shorter = runs.drop_last();
        let last = runs.last();
        assert forall|i: int, j: int| 0 <= i && j == i + 1 && j < shorter.len() implies (
        #[trigger] shorter[i]).1 == (#[trigger] shorter[j]).0 by {
            assert(runs[i].1 == runs[j].0);
        }
        if shorter.len() > 0 {
            assert(runs[runs.len() - 2].1 == runs[runs.len() - 1].0);
        }
        assert(consecutive(shorter, last.0));
        assert(0 <= runs[runs.len() - 1].0 <= runs[runs.len() - 1].1 <= ixs.len());
        lemma_flatten(ixs, shorter, last.0);
        let shorter_bodies = shorter.map_values(|s: Span| ixs.subrange(s.0, s.1));
        shorter_bodies.lemma_flatten_and_flatten_alt_are_equivalent();
        assert(bodies.drop_last() =~= shorter_bodies);
        assert(bodies.last() == ixs.subrange(last.0, last.1));
        assert(ixs.take(last.0) + ixs.subrange(last.0, last.1) =~= ixs.take(end));
    }
}

/// The transactions hold all the fitting instructions, each once and in their order: without the
/// prelude of each, they are the fitting instructions, one after the other. If every instruction
/// fits alone, these are all the instructions.
pub proof fn law_instructions_kept(
    prelude: Seq<InstructionView>,
    ixs: Seq<InstructionView>,
    payer: Pubkey,
)
    ensures
        groups(prelude, ixs, payer).map_values(
            |group: Seq<InstructionView>| group.skip(prelude.len() as int),
        ).flatten() == fitting(prelude, ixs, payer),
        all_fit_alone(prelude, ixs, payer) ==> fitting(prelude, ixs, payer) == ixs,
{
    let kept = fitting(prelude, ixs, payer);
    let n = kept.len() as int;
    law_groups_are_runs(prelude, ixs, payer);
    law_fitting_are_kept(prelude, ixs, payer);
    let runs = packed_runs(prelude, ixs, payer);
    let all = groups(prelude, ixs, payer);
    let bodies = all.map_values(|group: Seq<InstructionView>| group.skip(prelude.len() as int));
    if n == 0 {
        assert(prelude.skip(prelude.len() as int) =~= Seq::empty());
        assert(bodies =~= seq![Seq::empty()]);
        bodies.lemma_flatten_and_flatten_alt_are_equivalent();
        reveal_with_fuel(Seq::flatten_alt, 2);
        assert(bodies.drop_last() =~= Seq::empty());
        assert(bodies.flatten() =~= kept);
    } else {
        lemma_flatten(kept, runs, n);
        assert(kept.take(n) =~= kept);
        assert forall|i: int| 0 <= i < bodies.len() implies #[trigger] bodies[i] == kept.subrange(
            runs[i].0,
            runs[i].1,
        ) by {
            assert(all[i] == span_group(prelude, kept, runs[i]));
            assert(span_group(prelude, kept, runs[i]).skip(prelude.len() as int) =~= kept.subrange(
                runs[i].0,
                runs[i].1,
            ));
        }
        assert(bodies =~= runs.map_values(|s: Span| kept.subrange(s.0, s.1)));
    }
}

/// A transaction is as full as it can be: the first instruction of the next one would not have fit
/// into it.
pub proof fn law_groups_are_full(
    prelude: Seq<InstructionView>,
    ixs: Seq<InstructionView>,
    payer: Pubkey,
    i: int,
)
    requires
        0 <= i < groups(prelude, ixs, payer).len() - 1,
    ensures
        groups(prelude, ixs, payer)[i + 1].len() > prelude.len(),
        !fits(
            groups(prelude, ixs, payer)[i].push(
                groups(prelude, ixs, payer)[i + 1][prelude.len() as int],
            ),
            payer,
        ),
{
    let kept = fitting(prelude, ixs, payer);
    law_groups_are_runs(prelude, ixs, payer);
    law_fitting_are_kept(prelude, ixs, payer);
    let runs = packed_runs(prelude, ixs, payer);
    law_cut_is_unique(prelude, kept, payer, runs);
    assert(full_run(prelude, kept, payer, runs[i]));
    assert(full_run(prelude, kept, payer, runs[i + 1]));
    assert(runs[i].1 == runs[i + 1].0);
    let next = groups(prelude, ixs, payer)[i + 1][prelude.len() as int];
    assert(next == kept[runs[i].1]);
    assert(groups(prelude, ixs, payer)[i].push(next) =~= span_group(
        prelude,
        kept,
        (runs[i].0, runs[i].1 + 1),
    ));
}

/// Every transaction is within the limits of the network.
pub proof fn law_groups_fit(
    compute_budget: u32,
    priority_fee: u64,
    ixs: Seq<InstructionView>,
    payer: Pubkey,
)
    ensures
        forall|i: int|
            #![trigger groups(prelude_of(compute_budget, priority_fee), ixs, payer)[i]]
            0 <= i < groups(prelude_of(compute_budget, priority_fee), ixs, payer).len() ==> fits(
                groups(prelude_of(compute_budget, priority_fee), ixs, payer)[i],
                payer,
            ),
{
    let prelude = prelude_of(compute_budget, priority_fee);
    let kept = fitting(prelude, ixs, payer);
    let runs = packed_runs(prelude, ixs, payer);
    lemma_prelude(compute_budget, priority_fee, payer);
    law_fitting_are_kept(prelude, ixs, payer);
    law_cut_is_unique(prelude, kept, payer, runs);
    assert forall|i: int| #![trigger groups(prelude, ixs, payer)[i]] 0 <= i < groups(
        prelude,
        ixs,
        payer,
    ).len() implies fits(groups(prelude, ixs, payer)[i], payer) by {
        if kept.len() > 0 {
            assert(full_run(prelude, kept, payer, runs[i]));
        }
    }
}

/// An instruction that does not fit alone is in no transaction.
pub proof fn law_oversized_is_left_out(
    prelude: Seq<InstructionView>,
    ixs: Seq<InstructionView>,
    payer: Pubkey,
    ix: InstructionView,
    i: int,
)
    requires
        !fits(prelude.push(ix), payer),
        0 <= i < groups(prelude, ixs, payer).len(),
    ensures
        !groups(prelude, ixs, payer)[i].skip(prelude.len() as int).contains(ix),
{
    let kept = fitting(prelude, ixs, payer);
    law_groups_are_runs(prelude, ixs, payer);
    law_fitting_are_kept(prelude, ixs, payer);
    let body = groups(prelude, ixs, payer)[i].skip(prelude.len() as int);
    if body.contains(ix) {
        let k = choose|k: int| 0 <= k < body.len() && body[k] == ix;
        if kept.len() > 0 {
            let run = packed_runs(prelude, ixs, payer)[i];
            assert(kept[run.0 + k] == ix);
        }
    }
}

/// Full runs get at least as far as any runs that fit.
proof fn lemma_farthest(
    prelude: Seq<InstructionView>,
    ixs: Seq<InstructionView>,
    payer: Pubkey,
    runs: Seq<Span>,
    others: Seq<Span>,
    i: int,
)
    requires
        full_runs(prelude, ixs, payer, runs),
        consecutive(others, ixs.len() as int),
        forall|k: int|
            0 <= k < others.len() ==> 0 <= (#[trigger] others[k]).0 <= others[k].1 <= ixs.len()
                && fits(span_group(prelude, ixs, others[k]), payer),
        0 <= i < others.len(),
        i < runs.len(),
    ensures
        others[i].1 <= runs[i].1,
    decreases i,
{
    assert(full_run(prelude, ixs, payer, runs[i]));
    if i > 0 {
        lemma_farthest(prelude, ixs, payer, runs, others, i - 1);
        assert(runs[i - 1].1 == runs[i].0);
        assert(others[i - 1].1 == others[i].0);
    }
    if others[i].1 > runs[i].1 {
        lemma_fits_within(prelude, ixs, payer, others[i], (runs[i].0, runs[i].1 + 1));
    }
}

/// There are as few transactions as there can be: the fitting instructions cannot be cut, in their
/// order, into fewer runs that all fit.
pub proof fn law_fewest_transactions(
    prelude: Seq<InstructionView>,
    ixs: Seq<InstructionView>,
    payer: Pubkey,
    others: Seq<Span>,
)
    requires
        fitting(prelude, ixs, payer).len() > 0,
        consecutive(others, fitting(prelude, ixs, payer).len() as int),
        forall|k: int|
            0 <= k < others.len() ==> 0 <= (#[trigger] others[k]).0 <= others[k].1 <= fitting(
                prelude,
                ixs,
                payer,
            ).len() && fits(
                span_group(prelude, fitting(prelude, ixs, payer), others[k]),
                payer,
            ),
    ensures
        groups(prelude, ixs, payer).len() <= others.len(),
{
    let kept = fitting(prelude, ixs, payer);
    let runs = packed_runs(prelude, ixs, payer);
    law_fitting_are_kept(prelude, ixs, payer);
    law_cut_is_unique(prelude, kept, payer, runs);
    if others.len() < runs.len() {
        let n = others.len() as int;
        assert(full_run(prelude, kept, payer, runs[n]));
        if n > 0 {
            lemma_farthest(prelude, kept, payer, runs, others, n - 1);
            assert(others[n - 1] == others.last());
            assert(runs[n - 1].1 == runs[n].0);
        }
    }
}

/// A transaction limits its compute units only if the budget is not the default, and offers a price
/// only if there is a fee; nothing else stands in front of the instructions.
pub proof fn law_prelude_only_when_set(compute_budget: u32, priority_fee: u64)
    ensures
        prelude_of(compute_budget, priority_fee).contains(limit_instruction(compute_budget))
            <==> compute_budget != DEFAULT_COMPUTE_BUDGET,
        prelude_of(compute_budget, priority_fee).contains(price_instruction(priority_fee))
            <==> priority_fee != 0,
        forall|i: int|
            0 <= i < prelude_of(compute_budget, priority_fee).len() ==> (
            #[trigger] prelude_of(compute_budget, priority_fee)[i]) == limit_instruction(
                compute_budget,
            ) || prelude_of(compute_budget, priority_fee)[i] == price_instruction(priority_fee),
        prelude_of(compute_budget, priority_fee).no_duplicates(),
{
    let prelude = prelude_of(compute_budget, priority_fee);
    let limit = limit_instruction(compute_budget);
    let price = price_instruction(priority_fee);
    assert(limit.data[0] == 2);
    assert(price.data[0] == 3);
    if compute_budget != DEFAULT_COMPUTE_BUDGET {
        assert(prelude[0] == limit);
    }
    if priority_fee != 0 {
        assert(prelude[prelude.len() - 1] == price);
    }
}

} // verus!
