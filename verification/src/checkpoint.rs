//! Checkpoint file naming and the per-point skip-or-fetch plan.
//!
//! Each input point maps to a deterministic file name in the scratch
//! directory; a name already present there means the point was fetched by an
//! earlier (interrupted) run and is skipped.

use vstd::prelude::*;
use vstd::string::*;
use crate::numfmt::{dec_str, is_dec_digit, lemma_dec_str_digits, lemma_dec_str_injective,
    u64_to_dec_chars};
use crate::point::Point;
use crate::text::{clean_and_snakecase, clean_spec};

verus! {

/// The checkpoint file name for the point at `index` with identifier
/// `point_id`: `{index}_{normalized id}_output.csv`.
pub open spec fn checkpoint_name_spec(index: nat, point_id: Seq<char>) -> Seq<char> {
    dec_str(index) + seq!['_'] + clean_spec(point_id) + "_output.csv"@
}

/// Computes the checkpoint file name for one point.
pub fn checkpoint_name(index: usize, point_id: &str) -> (r: String)
    ensures
        r@ == checkpoint_name_spec(index as nat, point_id@),
{
    let digits = u64_to_dec_chars(index as u64);
    let mut s = crate::text::string_of(&digits);
    s.append("_");
    let cleaned = clean_and_snakecase(point_id);
    s.append(cleaned.as_str());
    s.append("_output.csv");
    proof {
        reveal_strlit("_");
        assert("_"@ =~= seq!['_']);
        assert(s@ =~= checkpoint_name_spec(index as nat, point_id@));
    }
    s
}

/// Distinct indices give distinct checkpoint names, whatever the
/// identifiers: the name starts with the index's digits, and the first
/// underscore ends them.
pub proof fn lemma_checkpoint_name_injective_index(
    i: nat,
    p: Seq<char>,
    j: nat,
    q: Seq<char>,
)
    requires
        checkpoint_name_spec(i, p) == checkpoint_name_spec(j, q),
    ensures
        i == j,
{
    let a = dec_str(i);
    let b = dec_str(j);
    lemma_dec_str_digits(i);
    lemma_dec_str_digits(j);
    let ni = checkpoint_name_spec(i, p);
    let nj = checkpoint_name_spec(j, q);
    assert(ni[a.len() as int] == '_');
    assert(nj[b.len() as int] == '_');
    if a.len() < b.len() {
        assert(nj[a.len() as int] == b[a.len() as int]);
        assert(is_dec_digit(b[a.len() as int]));
        assert(('_') as u32 == 95);
        assert(false);
    } else if b.len() < a.len() {
        assert(ni[b.len() as int] == a[b.len() as int]);
        assert(is_dec_digit(a[b.len() as int]));
        assert(('_') as u32 == 95);
        assert(false);
    } else {
        assert(a =~= b) by {
            assert(forall|k: int| 0 <= k < a.len() ==> ni[k] == a[k] && nj[k] == b[k]);
        }
        lemma_dec_str_injective(i, j);
    }
}

/// What the orchestrator decides to do with one point.
#[derive(Clone, Copy, Debug, PartialEq, Eq, Structural)]
pub enum PointAction {
    /// The checkpoint file already exists: do not fetch again.
    Skip,
    /// No checkpoint yet: fetch, flatten and write one.
    Fetch,
}

/// Membership of a name among the scratch directory's file names.
pub open spec fn in_names(existing: Seq<Seq<char>>, name: Seq<char>) -> bool {
    exists|j: int| 0 <= j < existing.len() && existing[j] == name
}

/// Whether the point at `i` is skipped: its checkpoint name is already
/// present in the scratch directory.
pub open spec fn skip_point(point_ids: Seq<Seq<char>>, existing: Seq<Seq<char>>, i: int) -> bool {
    in_names(existing, checkpoint_name_spec(i as nat, point_ids[i]))
}

/// The plan for a batch: one action per point, in input order.
pub open spec fn plan_spec(point_ids: Seq<Seq<char>>, existing: Seq<Seq<char>>) -> Seq<
    PointAction,
> {
    Seq::new(
        point_ids.len(),
        |i: int|
            if skip_point(point_ids, existing, i) {
                PointAction::Skip
            } else {
                PointAction::Fetch
            },
    )
}

/// The identifiers of a point list.
pub open spec fn ids_of(points: Seq<Point>) -> Seq<Seq<char>> {
    points.map_values(|p: Point| p.point_id@)
}

fn contains_name(existing: &Vec<String>, name: &String) -> (b: bool)
    ensures
        b == in_names(existing.deep_view(), name@),
{
    let mut j: usize = 0;
    while j < existing.len()
        invariant
            j <= existing.len(),
            forall|k: int| 0 <= k < j ==> existing.deep_view()[k] != name@,
        decreases existing.len() - j,
    {
        if existing[j].eq(name) {
            assert(existing.deep_view()[j as int] == name@);
            return true;
        }
        j = j + 1;
    }
    false
}

/// The checkpoint file names for a batch of points, in input order.
pub fn checkpoint_names(points: &Vec<Point>) -> (names: Vec<String>)
    ensures
        names.len() == points.len(),
        forall|i: int|
            0 <= i < points.len() ==> names.deep_view()[i] == checkpoint_name_spec(
                i as nat,
                ids_of(points@)[i],
            ),
{
    let mut names: Vec<String> = Vec::new();
    let mut i: usize = 0;
    while i < points.len()
        invariant
            i <= points.len(),
            names.len() == i,
            forall|k: int|
                0 <= k < i ==> names.deep_view()[k] == checkpoint_name_spec(
                    k as nat,
                    ids_of(points@)[k],
                ),
        decreases points.len() - i,
    {
        let name = checkpoint_name(i, points[i].point_id.as_str());
        assert(name@ == checkpoint_name_spec(i as nat, points@[i as int].point_id@));
        let ghost prev = names@;
        let ghost prev_dv = names.deep_view();
        let ghost name_view = name@;
        names.push(name);
        i = i + 1;
        proof {
            assert forall|k: int|
                0 <= k < i implies names.deep_view()[k] == checkpoint_name_spec(
                k as nat,
                ids_of(points@)[k],
            ) by {
                assert(names.deep_view()[k] == names@[k]@);
                assert(ids_of(points@)[k] == points@[k].point_id@);
                if k == i - 1 {
                    assert(names@[k]@ == name_view);
                    assert(name_view == checkpoint_name_spec(k as nat, points@[k].point_id@));
                } else {
                    assert(names@[k] == prev[k]);
                    assert(prev_dv[k] == prev[k]@);
                    assert(prev_dv[k] == checkpoint_name_spec(k as nat, ids_of(points@)[k]));
                }
                assert(names@[k]@ == checkpoint_name_spec(k as nat, ids_of(points@)[k]));
                assert(names.deep_view()[k] == checkpoint_name_spec(
                    k as nat,
                    ids_of(points@)[k],
                ));
            }
        }
    }
    names
}

/// Decides, for each point in input order, whether its checkpoint already
/// exists (skip) or must be fetched.
pub fn plan_actions(points: &Vec<Point>, existing: &Vec<String>) -> (plan: Vec<PointAction>)
    ensures
        plan@ == plan_spec(ids_of(points@), existing.deep_view()),
{
    let ghost pids = ids_of(points@);
    let ghost ex = existing.deep_view();
    let mut plan: Vec<PointAction> = Vec::new();
    let mut i: usize = 0;
    while i < points.len()
        invariant
            i <= points.len(),
            pids == ids_of(points@),
            ex == existing.deep_view(),
            plan@ =~= plan_spec(pids, ex).take(i as int),
        decreases points.len() - i,
    {
        let name = checkpoint_name(i, points[i].point_id.as_str());
        if contains_name(existing, &name) {
            plan.push(PointAction::Skip);
        } else {
            plan.push(PointAction::Fetch);
        }
        i = i + 1;
        assert(plan@ =~= plan_spec(pids, ex).take(i as int));
    }
    assert(plan@ =~= plan_spec(pids, ex));
    plan
}

/// Idempotence of a completed batch: when the scratch directory already
/// holds every point's checkpoint file, the plan skips every point, so a
/// second run performs no fetch. The combined output is then the same as
/// the first run's: the combiner determines it from the checkpoint texts
/// alone (`crate::combine::lemma_combined_output_deterministic`).
pub proof fn lemma_second_run_skips_all(point_ids: Seq<Seq<char>>, existing: Seq<Seq<char>>)
    requires
        forall|i: int|
            0 <= i < point_ids.len() ==> in_names(
                existing,
                checkpoint_name_spec(i as nat, point_ids[i]),
            ),
    ensures
        forall|i: int| 0 <= i < point_ids.len() ==> plan_spec(point_ids, existing)[i] is Skip,
{
}

/// Resume correctness: when the scratch directory holds exactly the
/// checkpoint files of the first `k` points, the plan skips those and
/// fetches exactly the points from `k` on. The combined output of the
/// resumed run equals that of an uninterrupted run over the same per-point
/// texts, since the combiner determines it from those texts alone
/// (`crate::combine::lemma_combined_output_deterministic`).
pub proof fn lemma_resume_fetches_remainder(
    point_ids: Seq<Seq<char>>,
    existing: Seq<Seq<char>>,
    k: int,
)
    requires
        0 <= k <= point_ids.len(),
        existing.len() == k,
        forall|j: int|
            0 <= j < k ==> existing[j] == checkpoint_name_spec(j as nat, point_ids[j]),
    ensures
        forall|i: int|
            0 <= i < point_ids.len() ==> (plan_spec(point_ids, existing)[i] is Skip <==> i < k),
{
    assert forall|i: int| 0 <= i < point_ids.len() implies (plan_spec(point_ids, existing)[i]
        is Skip <==> i < k) by {
        if i < k {
            assert(existing[i] == checkpoint_name_spec(i as nat, point_ids[i]));
            assert(skip_point(point_ids, existing, i));
        } else {
            if skip_point(point_ids, existing, i) {
                let j = choose|j: int|
                    0 <= j < existing.len() && existing[j] == checkpoint_name_spec(
                        i as nat,
                        point_ids[i],
                    );
                assert(existing[j] == checkpoint_name_spec(j as nat, point_ids[j]));
                lemma_checkpoint_name_injective_index(
                    i as nat,
                    point_ids[i],
                    j as nat,
                    point_ids[j],
                );
                assert(false);
            }
        }
    }
}

} // verus!
