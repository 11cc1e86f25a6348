//! Properties of the generation rule, the shift and the two representations.
use vstd::prelude::*;
use crate::dense::DenseBoard;
use crate::rules::{
    generations, in_interior, neighbor_count, next_generation, shifted, within, Shift,
};
use crate::sparse::LifeBoard;

verus! {

/// After a generation no live cell lies outside the interior.
pub proof fn lemma_step_within(n: int, live: Set<(int, int)>)
    ensures
        within(n, next_generation(n, live)),
{
}

/// Starting from cells in the interior, every generation stays in the interior.
pub proof fn lemma_generations_within(n: int, live: Set<(int, int)>, k: nat)
    requires
        within(n, live),
    ensures
        within(n, generations(n, live, k)),
    decreases k,
{
    if k > 0 {
        lemma_generations_within(n, live, (k - 1) as nat);
    }
}

/// A cell is live after a generation exactly when it is an interior cell that
/// was live with 2 or 3 live neighbours, or was dead with exactly 3.
pub proof fn lemma_rule(n: int, live: Set<(int, int)>, x: int, y: int)
    ensures
        next_generation(n, live).contains((x, y)) <==> in_interior(n, x, y) && ((live.contains(
            (x, y),
        ) && (neighbor_count(live, x, y) == 2 || neighbor_count(live, x, y) == 3)) || (
        !live.contains((x, y)) && neighbor_count(live, x, y) == 3)),
{
}

/// A generation of an all-dead board is all dead.
pub proof fn lemma_dead_stays_dead(n: int)
    ensures
        next_generation(n, Set::<(int, int)>::empty()) == Set::<(int, int)>::empty(),
{
    assert(next_generation(n, Set::<(int, int)>::empty()) =~= Set::<(int, int)>::empty());
}

/// Shifting up by `d` and then down by `d` kills the cells within `d` rows of
/// the top edge and leaves every other cell as it was.
pub proof fn lemma_shift_round_trip(n: int, live: Set<(int, int)>, d: usize)
    requires
        within(n, live),
    ensures
        forall|p: (int, int)|
            #[trigger] shifted(n, shifted(n, live, Shift::Up(d)), Shift::Down(d)).contains(p) <==> (
            live.contains(p) && p.1 > d),
{
}

/// A dense and a sparse board that start from the same live cells and are
/// each advanced one generation at a time hold the same live cells after
/// every generation, namely the generations of the starting cells.
pub proof fn lemma_representations_agree(dense: Seq<DenseBoard>, sparse: Seq<LifeBoard>)
    requires
        dense.len() >= 1,
        sparse.len() == dense.len(),
        dense[0].side() == sparse[0].side(),
        dense[0].live() == sparse[0].live(),
        forall|i: int|
            0 <= i < dense.len() - 1 ==> #[trigger] dense[i + 1].side() == dense[i].side()
                && dense[i + 1].live() == next_generation(dense[i].side(), dense[i].live()),
        forall|i: int|
            0 <= i < sparse.len() - 1 ==> #[trigger] sparse[i + 1].side() == sparse[i].side()
                && sparse[i + 1].live() == next_generation(sparse[i].side(), sparse[i].live()),
    ensures
        forall|i: int|
            0 <= i < dense.len() ==> #[trigger] dense[i].live() == sparse[i].live()
                && dense[i].live() == generations(dense[0].side(), dense[0].live(), i as nat)
                && dense[i].side() == dense[0].side() && sparse[i].side() == dense[0].side(),
    decreases dense.len(),
{
    if dense.len() > 1 {
        let m = dense.len() - 1;
        let dp = dense.take(m);
        let sp = sparse.take(m);
        assert forall|i: int| 0 <= i < dp.len() - 1 implies #[trigger] dp[i + 1].side() == dp[i].side()
            && dp[i + 1].live() == next_generation(dp[i].side(), dp[i].live()) by {
            assert(dense[i + 1].side() == dense[i].side());
        }
        assert forall|i: int| 0 <= i < sp.len() - 1 implies #[trigger] sp[i + 1].side() == sp[i].side()
            && sp[i + 1].live() == next_generation(sp[i].side(), sp[i].live()) by {
            assert(sparse[i + 1].side() == sparse[i].side());
        }
        lemma_representations_agree(dp, sp);
        assert(dp[m - 1] == dense[m - 1]);
        assert(sp[m - 1] == sparse[m - 1]);
        assert(dense[(m - 1) + 1].side() == dense[m - 1].side());
        assert(sparse[(m - 1) + 1].side() == sparse[m - 1].side());
        assert forall|i: int| 0 <= i < dense.len() implies #[trigger] dense[i].live() == sparse[i].live()
            && dense[i].live() == generations(dense[0].side(), dense[0].live(), i as nat)
            && dense[i].side() == dense[0].side() && sparse[i].side() == dense[0].side() by {
            if i < m {
                assert(dp[i] == dense[i]);
                assert(sp[i] == sparse[i]);
            }
        }
    }
}

} // verus!
