//! Solving by iterative deepening, and how results are shown.
use vstd::prelude::*;

use crate::solver::memoized::{all_indices, list_value, search_trusted, solvable, MemoizedSolver};
use crate::solver::search::{exact_kept, keys_kept};
use crate::text::{decimal, push_decimal, push_text};

verus! {

/// Solve with budgets from one miss up to `max_misses`, each run helped by the entries
/// of those before it. The value where it is at most `max_misses`, else a number above
/// the budget that the value reaches; zero where the budget is zero. `between` is shown
/// the solver after each run that does not settle the value, so that its entries can
/// be saved.
pub fn solve_deepening<D: Fn(u128) -> Option<u32>, B: Fn(&MemoizedSolver)>(
    solver: &mut MemoizedSolver,
    words: &[Vec<u8>],
    max_misses: u32,
    disk: &D,
    between: &B,
) -> (r: u32)
    requires
        old(solver).wf(),
        words@.len() > 0,
        solvable(words@),
        max_misses < u32::MAX,
        forall|key: u128| #[trigger] disk.requires((key,)),
        forall|s: &MemoizedSolver| #[trigger] between.requires((s,)),
    ensures
        final(solver).wf(),
        exact_kept(old(solver).table(), final(solver).table()),
        keys_kept(old(solver).table(), final(solver).table()),
        max_misses == 0 ==> r == 0 && *final(solver) == *old(solver),
        max_misses > 0 && search_trusted(words@, all_indices(words@.len()), 0, *disk) && old(solver).sound() ==> {
            &&& list_value(words@) <= max_misses ==> r == list_value(words@)
            &&& list_value(words@) > max_misses ==> max_misses < r <= list_value(words@)
            &&& final(solver).sound()
        },
{
    let ghost all = all_indices(words@.len());
    let ghost trusted = search_trusted(words@, all, 0, *disk) && solver.sound();
    let ghost start = solver.table();
    let mut result: u32 = 0;
    let mut target: u32 = 1;
    while target <= max_misses
        invariant
            1 <= target <= max_misses + 1,
            max_misses < u32::MAX,
            solver.wf(),
            words@.len() > 0,
            solvable(words@),
            forall|key: u128| #[trigger] disk.requires((key,)),
            forall|s: &MemoizedSolver| #[trigger] between.requires((s,)),
            all == all_indices(words@.len()),
            start == old(solver).table(),
            exact_kept(start, solver.table()),
            keys_kept(start, solver.table()),
            trusted ==> search_trusted(words@, all, 0, *disk),
            trusted == (search_trusted(words@, all, 0, *disk) && old(solver).sound()),
            trusted ==> solver.sound(),
            target == 1 ==> result == 0 && *solver == *old(solver),
            target > 1 && trusted ==> list_value(words@) > target - 1 && target - 1 < result <= list_value(words@),
        decreases max_misses + 1 - target,
    {
        result = solver.solve_bounded_with_disk(words, target, disk);
        if result <= target {
            return result;
        }
        between(&*solver);
        target += 1;
    }
    result
}

/// How the result of a run is shown: as more than the budget where the budget was too
/// small for the value.
pub open spec fn misses_shown(misses: u32, bounded: Option<u32>) -> Seq<char> {
    if bounded is Some && misses > bounded->0 {
        ">"@ + decimal(bounded->0 as nat)
    } else {
        decimal(misses as nat)
    }
}

/// The result of a run as text.
pub fn misses_text(misses: u32, bounded: Option<u32>) -> (r: String)
    ensures
        r@ == misses_shown(misses, bounded),
{
    let mut s = String::new();
    if let Some(max) = bounded {
        if misses > max {
            push_text(&mut s, ">");
            push_decimal(&mut s, max as u64);
            assert(s@ =~= misses_shown(misses, bounded));
            return s;
        }
    }
    push_decimal(&mut s, misses as u64);
    assert(s@ =~= misses_shown(misses, bounded));
    s
}

/// Within the budget, or without one, the number itself is shown; beyond it only that it
/// is more than the budget, whatever it is.
pub proof fn lemma_misses_shown(misses: u32, budget: u32)
    ensures
        misses_shown(misses, None) == decimal(misses as nat),
        misses <= budget ==> misses_shown(misses, Some(budget)) == decimal(misses as nat),
        misses > budget ==> misses_shown(misses, Some(budget)) == seq!['>'] + decimal(budget as nat),
{
    reveal_strlit(">");
    assert(">"@ =~= seq!['>']);
}

} // verus!
