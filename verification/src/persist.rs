//! What becomes of the dashboards read from their files: none is running
//! yet, and the list is ordered by name. Reading and writing the files is
//! left to the program around the library.
use vstd::prelude::*;

use crate::model::dashboard::{Dashboard, RunState};
use crate::seqs::{first_index, lemma_first_index_is};
use crate::text::chars_of;

verus! {

broadcast use vstd::seq_lib::group_to_multiset_ensures;

/// `a` comes no later than `b` in name order: character by character by
/// code point, a prefix first. This is the order of Rust's `str`.
pub open spec fn name_le(a: Seq<char>, b: Seq<char>) -> bool
    decreases a.len(),
{
    if a.len() == 0 {
        true
    } else if b.len() == 0 {
        false
    } else if a[0] != b[0] {
        (a[0] as int) < (b[0] as int)
    } else {
        name_le(a.drop_first(), b.drop_first())
    }
}

/// Every name comes no later than itself.
pub proof fn lemma_name_reflexive(a: Seq<char>)
    ensures
        name_le(a, a),
    decreases a.len(),
{
    if a.len() > 0 {
        lemma_name_reflexive(a.drop_first());
    }
}

/// Name order is total.
pub proof fn lemma_name_total(a: Seq<char>, b: Seq<char>)
    ensures
        name_le(a, b) || name_le(b, a),
    decreases a.len(),
{
    if a.len() > 0 && b.len() > 0 && a[0] == b[0] {
        lemma_name_total(a.drop_first(), b.drop_first());
    }
}

/// Name order is transitive.
pub proof fn lemma_name_transitive(a: Seq<char>, b: Seq<char>, c: Seq<char>)
    requires
        name_le(a, b),
        name_le(b, c),
    ensures
        name_le(a, c),
    decreases a.len(),
{
    if a.len() > 0 && b.len() > 0 && c.len() > 0 && a[0] == b[0] && b[0] == c[0] {
        lemma_name_transitive(a.drop_first(), b.drop_first(), c.drop_first());
    }
}

/// Whether `a` comes no later than `b` in name order.
pub fn name_in_order(a: &str, b: &str) -> (r: bool)
    ensures
        r == name_le(a@, b@),
{
    let x = chars_of(a);
    let y = chars_of(b);
    let mut i: usize = 0;
    assert(x@.skip(0) =~= x@);
    assert(y@.skip(0) =~= y@);
    while i < x.len() && i < y.len() && x[i] == y[i]
        invariant
            i <= x@.len(),
            i <= y@.len(),
            name_le(x@, y@) == name_le(x@.skip(i as int), y@.skip(i as int)),
        decreases x.len() - i,
    {
        proof {
            assert(x@.skip(i as int).drop_first() =~= x@.skip(i + 1));
            assert(y@.skip(i as int).drop_first() =~= y@.skip(i + 1));
        }
        i = i + 1;
    }
    if i == x.len() {
        true
    } else if i == y.len() {
        false
    } else {
        proof {
            assert(x@.skip(i as int)[0] == x@[i as int]);
            assert(y@.skip(i as int)[0] == y@[i as int]);
        }
        x[i] < y[i]
    }
}

/// `ds` is ordered by name.
pub open spec fn by_name(ds: Seq<Dashboard>) -> bool {
    forall|i: int, j: int| 0 <= i < j < ds.len() ==> name_le(#[trigger] ds[i].name@, #[trigger] ds[j].name@)
}

/// A dashboard as it is loaded: not running.
pub open spec fn idle(d: Dashboard) -> Dashboard {
    Dashboard { run: RunState::Idle, ..d }
}

/// Whether a dashboard's name comes after `name`.
pub open spec fn named_after(name: Seq<char>) -> spec_fn(Dashboard) -> bool {
    |d: Dashboard| !name_le(d.name@, name)
}

/// `ds` with `x` inserted before the first dashboard whose name comes after
/// `x`'s.
pub open spec fn insert_by_name(ds: Seq<Dashboard>, x: Dashboard) -> Seq<Dashboard> {
    ds.insert(first_index(ds, named_after(x.name@)), x)
}

/// The loaded dashboards as the list shows them: each, made idle, inserted
/// by name after those read before it; so ordered by name, and in reading
/// order among equal names.
pub open spec fn settled(ds: Seq<Dashboard>) -> Seq<Dashboard>
    decreases ds.len(),
{
    if ds.len() == 0 {
        Seq::empty()
    } else {
        insert_by_name(settled(ds.drop_last()), idle(ds.last()))
    }
}

/// Where `x` goes into `ds`: before the first dashboard whose name comes
/// after its own.
fn insert_at(ds: &Vec<Dashboard>, x: &Dashboard) -> (r: usize)
    ensures
        r == first_index(ds@, named_after(x.name@)),
        r <= ds@.len(),
        forall|k: int| 0 <= k < r ==> name_le(#[trigger] ds@[k].name@, x.name@),
        r < ds@.len() ==> !name_le(ds@[r as int].name@, x.name@),
{
    let ghost p = named_after(x.name@);
    let mut k: usize = 0;
    while k < ds.len() && name_in_order(ds[k].name.as_str(), x.name.as_str())
        invariant
            k <= ds@.len(),
            p == named_after(x.name@),
            forall|j: int| 0 <= j < k ==> name_le(#[trigger] ds@[j].name@, x.name@),
        decreases ds.len() - k,
    {
        k = k + 1;
    }
    proof {
        assert forall|j: int| 0 <= j < k implies !p(#[trigger] ds@[j]) by {
            assert(name_le(ds@[j].name@, x.name@));
        }
        lemma_first_index_is(ds@, p, k as int);
    }
    k
}

/// The loaded dashboards, none of them running, ordered by name; dashboards
/// with the same name keep the order they were read in.
pub fn settle_loaded(loaded: Vec<Dashboard>) -> (r: Vec<Dashboard>)
    ensures
        r@ == settled(loaded@),
        by_name(r@),
        r@.to_multiset() == loaded@.map_values(|d: Dashboard| idle(d)).to_multiset(),
        forall|i: int| 0 <= i < r@.len() ==> (#[trigger] r@[i]).run == RunState::Idle,
{
    let ghost input = loaded@.map_values(|d: Dashboard| idle(d));
    let mut rest = loaded;
    let ghost orig = rest@;
    assert(orig.len() == rest.len());
    let mut out: Vec<Dashboard> = Vec::new();
    let mut taken: usize = 0;
    while rest.len() > 0
        invariant
            taken + rest@.len() == orig.len(),
            orig.len() <= usize::MAX,
            rest@ == orig.skip(taken as int),
            input == orig.map_values(|d: Dashboard| idle(d)),
            by_name(out@),
            out@ == settled(orig.take(taken as int)),
            out@.to_multiset() == input.take(taken as int).to_multiset(),
            forall|i: int| 0 <= i < out@.len() ==> (#[trigger] out@[i]).run == RunState::Idle,
        decreases rest@.len(),
    {
        let mut d = rest.remove(0);
        d.run = RunState::Idle;
        let ghost before = out@;
        let at = insert_at(&out, &d);
        proof {
            assert forall|j: int| at < j < before.len() implies name_le(d.name@, #[trigger] before[j].name@) by {
                lemma_name_total(before[at as int].name@, d.name@);
                lemma_name_transitive(d.name@, before[at as int].name@, before[j].name@);
            }
        }
        out.insert(at, d);
        proof {
            let after = out@;
            assert forall|i: int, j: int| 0 <= i < j < after.len() implies name_le(
                #[trigger] after[i].name@,
                #[trigger] after[j].name@,
            ) by {
                if j < at {
                    assert(after[i] == before[i] && after[j] == before[j]);
                } else if j == at {
                    assert(after[i] == before[i]);
                } else if i < at {
                    assert(after[i] == before[i] && after[j] == before[j - 1]);
                    if at < before.len() {
                        lemma_name_reflexive(before[at as int].name@);
                        lemma_name_total(before[at as int].name@, d.name@);
                        lemma_name_transitive(before[i].name@, d.name@, before[at as int].name@);
                        lemma_name_transitive(before[i].name@, before[at as int].name@, before[j - 1].name@);
                    }
                } else if i == at {
                    assert(after[j] == before[j - 1]);
                    if j - 1 > at {
                        assert(name_le(d.name@, before[j - 1].name@));
                    } else {
                        lemma_name_total(before[at as int].name@, d.name@);
                    }
                } else {
                    assert(after[i] == before[i - 1] && after[j] == before[j - 1]);
                }
            }
            assert(orig.skip(taken as int)[0] == orig[taken as int]);
            assert(orig.take(taken + 1).drop_last() =~= orig.take(taken as int));
            assert(orig.take(taken + 1).last() == orig[taken as int]);
            assert(d == idle(orig[taken as int]));
            assert(input.take(taken + 1) =~= input.take(taken as int).push(input[taken as int]));
            assert(input[taken as int] == idle(orig[taken as int]));
            assert(rest@ =~= orig.skip(taken + 1));
        }
        taken = taken + 1;
    }
    assert(input.take(taken as int) =~= input);
    assert(orig.take(taken as int) =~= orig);
    out
}

} // verus!
