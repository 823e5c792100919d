//! The ordering rule of the schedule, and a stable sort proved against it.
//!
//! Tasks are ordered by `priority` in natural order; among equal priorities
//! the higher `age` sorts earlier, so the longest-waiting of equally urgent
//! tasks stands first. `sort_spec` pins the sorted sequence down exactly:
//! each element is inserted in front of the first already-placed element it
//! may precede, which keeps the original order of tasks the rule ties.

use vstd::prelude::*;

use crate::task::Task;
use vstd::std_specs::cmp::PartialOrdSpec;

verus! {

/// `a` sorts before `b` or ties with it: lower priority first, and among
/// equal priorities the higher age first.
pub open spec fn task_le(a: Task, b: Task) -> bool {
    a.priority < b.priority || (a.priority == b.priority && a.age >= b.age)
}

/// Every pair of positions respects the ordering rule.
pub open spec fn sorted(s: Seq<Task>) -> bool {
    forall|i: int, j: int| 0 <= i < j < s.len() ==> #[trigger] task_le(s[i], s[j])
}

/// The position where `x` lands when inserted into `s`: just before the
/// first element that `x` may precede or tie with. An element the rule
/// ties with `x` therefore never stands in front of `x`'s slot, which is
/// what keeps the sort stable.
pub open spec fn insert_pos(x: Task, s: Seq<Task>) -> int
    decreases s.len(),
{
    if s.len() == 0 {
        0
    } else if task_le(x, s[0]) {
        0
    } else {
        1 + insert_pos(x, s.drop_first())
    }
}

/// `s` with `x` inserted at its slot.
pub open spec fn insert_sorted_spec(x: Task, s: Seq<Task>) -> Seq<Task> {
    s.insert(insert_pos(x, s), x)
}

/// The sorted permutation of `s`: insertion sort, head into sorted tail.
pub open spec fn sort_spec(s: Seq<Task>) -> Seq<Task>
    decreases s.len(),
{
    if s.len() == 0 {
        s
    } else {
        insert_sorted_spec(s[0], sort_spec(s.drop_first()))
    }
}

/// The subsequence of tasks whose priority and age are exactly `(p, a)`,
/// in their original order. Two tasks tie under the ordering rule exactly
/// when they agree on both fields, so stability of a sort is the statement
/// that this subsequence is preserved.
pub open spec fn key_filter(s: Seq<Task>, p: u8, a: u32) -> Seq<Task>
    decreases s.len(),
{
    if s.len() == 0 {
        Seq::empty()
    } else {
        let rest = key_filter(s.drop_first(), p, a);
        if s[0].priority == p && s[0].age == a {
            seq![s[0]] + rest
        } else {
            rest
        }
    }
}

pub proof fn lemma_insert_pos_bounds(x: Task, s: Seq<Task>)
    ensures
        0 <= insert_pos(x, s) <= s.len(),
        forall|k: int| 0 <= k < insert_pos(x, s) ==> !task_le(x, #[trigger] s[k]),
        insert_pos(x, s) < s.len() ==> task_le(x, s[insert_pos(x, s)]),
    decreases s.len(),
{
    if s.len() == 0 {
    } else if task_le(x, s[0]) {
    } else {
        lemma_insert_pos_bounds(x, s.drop_first());
        let p = insert_pos(x, s);
        assert forall|k: int| 0 <= k < p implies !task_le(x, s[k]) by {
            if k > 0 {
                assert(s[k] == s.drop_first()[k - 1]);
            }
        }
        if p < s.len() {
            assert(s[p] == s.drop_first()[p - 1]);
        }
    }
}

pub proof fn lemma_insert_pos_unique(x: Task, s: Seq<Task>, j: int)
    requires
        0 <= j <= s.len(),
        forall|k: int| 0 <= k < j ==> !task_le(x, #[trigger] s[k]),
        j < s.len() ==> task_le(x, s[j]),
    ensures
        insert_pos(x, s) == j,
    decreases s.len(),
{
    if s.len() == 0 {
    } else if j == 0 {
    } else {
        assert(!task_le(x, s[0]));
        assert forall|k: int| 0 <= k < j - 1 implies !task_le(x, #[trigger] s.drop_first()[k]) by {
            assert(s.drop_first()[k] == s[k + 1]);
        }
        if j - 1 < s.drop_first().len() {
            assert(s.drop_first()[j - 1] == s[j]);
        }
        lemma_insert_pos_unique(x, s.drop_first(), j - 1);
    }
}

#[verifier::rlimit(30)]
pub proof fn lemma_insert_sorted(x: Task, s: Seq<Task>)
    requires
        sorted(s),
    ensures
        sorted(insert_sorted_spec(x, s)),
{
    lemma_insert_pos_bounds(x, s);
    let p = insert_pos(x, s);
    let r = insert_sorted_spec(x, s);
    s.insert_ensures(p, x);
    assert forall|i: int, j: int| 0 <= i < j < r.len() implies task_le(r[i], r[j]) by {
        if j < p {
            assert(task_le(s[i], s[j]));
        } else if p < i {
            assert(task_le(s[i - 1], s[j - 1]));
        } else if i < p && p < j {
            assert(r[i] == s[i]);
            assert(r[j] == s[j - 1]);
            if i < j - 1 {
                assert(task_le(s[i], s[j - 1]));
            }
        } else if i == p {
            assert(r[j] == s[j - 1]);
            assert(task_le(x, s[p]));
            if p < j - 1 {
                assert(task_le(s[p], s[j - 1]));
            }
        } else {
            assert(j == p && i < p);
            assert(!task_le(x, s[i]));
        }
    }
}

pub proof fn lemma_sort_spec_len(s: Seq<Task>)
    ensures
        sort_spec(s).len() == s.len(),
    decreases s.len(),
{
    if s.len() > 0 {
        lemma_sort_spec_len(s.drop_first());
        lemma_insert_pos_bounds(s[0], sort_spec(s.drop_first()));
        sort_spec(s.drop_first()).insert_ensures(
            insert_pos(s[0], sort_spec(s.drop_first())),
            s[0],
        );
    }
}

/// Law: sorting rearranges the collection and nothing more; the multiset
/// of tasks is unchanged.
pub proof fn lemma_sort_spec_multiset(s: Seq<Task>)
    ensures
        sort_spec(s).to_multiset() == s.to_multiset(),
    decreases s.len(),
{
    if s.len() > 0 {
        let rest = s.drop_first();
        lemma_sort_spec_multiset(rest);
        lemma_sort_spec_len(rest);
        lemma_insert_pos_bounds(s[0], sort_spec(rest));
        vstd::seq_lib::to_multiset_insert(sort_spec(rest), insert_pos(s[0], sort_spec(rest)), s[0]);
        assert(s =~= rest.insert(0, s[0]));
        vstd::seq_lib::to_multiset_insert(rest, 0, s[0]);
        assert(sort_spec(s).to_multiset() =~= s.to_multiset());
    }
}

/// Every element of the sorted sequence is an element of the input: the
/// index-free face of multiset preservation, handy for carrying invariants
/// across a sort.
pub proof fn lemma_sort_spec_element(s: Seq<Task>, i: int)
    requires
        0 <= i < sort_spec(s).len(),
    ensures
        exists|j: int| 0 <= j < s.len() && #[trigger] s[j] == sort_spec(s)[i],
{
    lemma_sort_spec_multiset(s);
    s.to_multiset_ensures();
    sort_spec(s).to_multiset_ensures();
    assert(sort_spec(s).contains(sort_spec(s)[i]));
    assert(sort_spec(s).to_multiset().count(sort_spec(s)[i]) > 0);
    assert(s.to_multiset().count(sort_spec(s)[i]) > 0);
    assert(s.contains(sort_spec(s)[i]));
}

/// Law: the sorted sequence respects the ordering rule in full; in
/// particular its first element is a task of lowest priority, tie-broken
/// toward the highest age.
pub proof fn lemma_sort_spec_sorted(s: Seq<Task>)
    ensures
        sorted(sort_spec(s)),
    decreases s.len(),
{
    if s.len() > 0 {
        lemma_sort_spec_sorted(s.drop_first());
        lemma_insert_sorted(s[0], sort_spec(s.drop_first()));
    }
}

pub proof fn lemma_key_filter_insert(x: Task, s: Seq<Task>, p: u8, a: u32)
    ensures
        key_filter(insert_sorted_spec(x, s), p, a) == if x.priority == p && x.age == a {
            seq![x] + key_filter(s, p, a)
        } else {
            key_filter(s, p, a)
        },
    decreases s.len(),
{
    let r = insert_sorted_spec(x, s);
    if s.len() == 0 {
        assert(r =~= seq![x]);
        assert(r.drop_first() =~= Seq::<Task>::empty());
        assert(key_filter(r.drop_first(), p, a) =~= Seq::<Task>::empty());
        if x.priority == p && x.age == a {
            assert(key_filter(r, p, a) =~= seq![x] + key_filter(s, p, a));
        }
    } else if task_le(x, s[0]) {
        s.insert_ensures(0, x);
        assert(r[0] == x);
        assert(r.drop_first() =~= s);
        if x.priority == p && x.age == a {
            assert(key_filter(r, p, a) =~= seq![x] + key_filter(s, p, a));
        }
    } else {
        lemma_insert_pos_bounds(x, s);
        let pos = insert_pos(x, s);
        s.insert_ensures(pos, x);
        lemma_insert_pos_bounds(x, s.drop_first());
        s.drop_first().insert_ensures(pos - 1, x);
        assert(r[0] == s[0]);
        assert(r.drop_first() =~= insert_sorted_spec(x, s.drop_first()));
        lemma_key_filter_insert(x, s.drop_first(), p, a);
        if x.priority == p && x.age == a {
            // An element tied with x's key would satisfy task_le(x, _),
            // so the head cannot carry that key here.
            assert(!(s[0].priority == p && s[0].age == a));
            assert(key_filter(r, p, a) == seq![x] + key_filter(s, p, a));
        } else {
            if s[0].priority == p && s[0].age == a {
                assert(key_filter(r, p, a) == key_filter(s, p, a));
            }
        }
    }
}

/// Law: the sort is stable. For any priority `p` and age `a`, the tasks
/// whose fields are exactly `(p, a)` — the tasks the ordering rule ties —
/// appear in `sort_spec(s)` in the same order as in `s`.
pub proof fn lemma_sort_spec_stable(s: Seq<Task>, p: u8, a: u32)
    ensures
        key_filter(sort_spec(s), p, a) == key_filter(s, p, a),
    decreases s.len(),
{
    if s.len() > 0 {
        lemma_sort_spec_stable(s.drop_first(), p, a);
        lemma_key_filter_insert(s[0], sort_spec(s.drop_first()), p, a);
    }
}

/// The comparator and the ordering rule agree: `a` precedes or ties with
/// `b` under the rule exactly when comparing the two yields anything but
/// `Greater`.
pub proof fn lemma_comparator_matches_rule(a: Task, b: Task)
    ensures
        task_le(a, b) <==> a.partial_cmp_spec(&b) != Some(core::cmp::Ordering::Greater),
{
}

fn task_le_exec(a: &Task, b: &Task) -> (r: bool)
    ensures
        r == task_le(*a, *b),
{
    a.priority < b.priority || (a.priority == b.priority && a.age >= b.age)
}

fn find_insert_pos(v: &Vec<Task>, x: &Task) -> (pos: usize)
    ensures
        pos == insert_pos(*x, v@),
{
    let n = v.len();
    let mut j: usize = 0;
    while j < n
        invariant
            j <= n,
            n == v@.len(),
            forall|k: int| 0 <= k < j ==> !task_le(*x, #[trigger] v@[k]),
        decreases n - j,
    {
        if task_le_exec(x, &v[j]) {
            proof {
                lemma_insert_pos_unique(*x, v@, j as int);
            }
            return j;
        }
        j += 1;
    }
    proof {
        lemma_insert_pos_unique(*x, v@, n as int);
    }
    j
}

/// Sorts the vector by the ordering rule, stably; the result is exactly
/// `sort_spec` of the input.
pub fn sort_tasks(v: &mut Vec<Task>)
    ensures
        final(v)@ == sort_spec(old(v)@),
{
    let ghost orig: Seq<Task> = v@;
    let mut out: Vec<Task> = Vec::new();
    proof {
        assert(orig.skip(orig.len() as int) =~= Seq::<Task>::empty());
        assert(orig.take(orig.len() as int) =~= orig);
    }
    while v.len() > 0
        invariant
            v@.len() <= orig.len(),
            v@ == orig.take(v@.len() as int),
            out@ == sort_spec(orig.skip(v@.len() as int)),
        decreases v@.len(),
    {
        let ghost i = v@.len() as int - 1;
        let x = v.pop().unwrap();
        proof {
            assert(orig.take(i + 1).subrange(0, i) =~= orig.take(i));
            assert(x == orig[i]);
        }
        let pos = find_insert_pos(&out, &x);
        proof {
            lemma_insert_pos_bounds(x, out@);
        }
        out.insert(pos, x);
        proof {
            assert(orig.skip(i).drop_first() =~= orig.skip(i + 1));
            assert(orig.skip(i)[0] == orig[i]);
        }
    }
    proof {
        assert(orig.skip(0) =~= orig);
        assert(v@.len() == 0);
    }
    *v = out;
}

} // verus!
