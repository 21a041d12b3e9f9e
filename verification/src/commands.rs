//! Commands over the task store: identifier disambiguation, prefix
//! resolution, list rendering and the application of parsed edit
//! instructions.

use vstd::prelude::*;

use crate::formatter::TaskFormatter;
use crate::task::{
    bytes_lt, due_lt, id_hex_bytes, lemma_hex_injective, task_views, Task, TaskId, TaskList,
    TaskView,
};
use crate::parser::program::{Program, ProgramView};

verus! {

use vstd::multiset::Multiset;
use vstd::string::StringSliceAdditionalSpecFns;
use vstd::utf8::encode_utf8;

/// The first index at which `a` and `b` differ; their common length
/// when one is a prefix of the other.
pub open spec fn first_diff(a: Seq<u8>, b: Seq<u8>) -> int
    decreases a.len(),
{
    if a.len() == 0 || b.len() == 0 {
        0
    } else if a[0] != b[0] {
        0
    } else {
        1 + first_diff(a.drop_first(), b.drop_first())
    }
}

/// The first `r` bytes of `a`; all of it when `r` reaches past the
/// end.
pub open spec fn pfx(a: Seq<u8>, r: int) -> Seq<u8> {
    if r <= 0 {
        Seq::empty()
    } else if r <= a.len() {
        a.take(r)
    } else {
        a
    }
}

/// Truncating every string to its first `r` bytes leaves them pairwise
/// distinct.
pub open spec fn all_distinct_at(ss: Seq<Seq<u8>>, r: int) -> bool {
    forall|i: int, j: int| 0 <= i < j < ss.len() ==> pfx(ss[i], r) != pfx(ss[j], r)
}

/// The views of a vector of byte strings.
pub open spec fn byte_views(ids: Seq<Vec<u8>>) -> Seq<Seq<u8>> {
    ids.map_values(|v: Vec<u8>| v@)
}

pub proof fn lemma_first_diff_props(a: Seq<u8>, b: Seq<u8>)
    requires
        a.len() == b.len(),
    ensures
        0 <= first_diff(a, b) <= a.len(),
        forall|k: int| 0 <= k < first_diff(a, b) ==> a[k] == b[k],
        first_diff(a, b) < a.len() ==> a[first_diff(a, b)] != b[first_diff(a, b)],
        first_diff(a, b) == a.len() ==> a == b,
    decreases a.len(),
{
    if a.len() > 0 && a[0] == b[0] {
        let ta = a.drop_first();
        let tb = b.drop_first();
        lemma_first_diff_props(ta, tb);
        let d = first_diff(a, b);
        assert forall|k: int| 0 <= k < d implies a[k] == b[k] by {
            if k >= 1 {
                assert(a[k] == ta[k - 1] && b[k] == tb[k - 1]);
            }
        }
        if d < a.len() {
            assert(a[d] == ta[d - 1] && b[d] == tb[d - 1]);
        } else {
            assert(ta == tb);
            assert forall|k: int| 0 <= k < a.len() implies a[k] == b[k] by {
                if k >= 1 {
                    assert(a[k] == ta[k - 1] && b[k] == tb[k - 1]);
                }
            }
            assert(a =~= b);
        }
    }
}

/// `first_diff` is the least mismatch: a position below which the
/// strings agree, and which itself disagrees (or is the end), is it.
pub proof fn lemma_first_diff_at(a: Seq<u8>, b: Seq<u8>, i: int)
    requires
        a.len() == b.len(),
        0 <= i <= a.len(),
        forall|k: int| 0 <= k < i ==> a[k] == b[k],
        i < a.len() ==> a[i] != b[i],
    ensures
        first_diff(a, b) == i,
    decreases a.len(),
{
    if i > 0 {
        let ta = a.drop_first();
        let tb = b.drop_first();
        assert(forall|k: int| 0 <= k < i - 1 ==> #[trigger] ta[k] == a[k + 1]);
        assert(forall|k: int| 0 <= k < i - 1 ==> #[trigger] tb[k] == b[k + 1]);
        if i - 1 < ta.len() {
            assert(ta[i - 1] == a[i] && tb[i - 1] == b[i]);
        }
        lemma_first_diff_at(ta, tb, i - 1);
    }
}

/// For distinct strings of one length, the `r`-byte prefixes agree
/// exactly when `r` does not reach the first difference.
pub proof fn lemma_pfx_iff(a: Seq<u8>, b: Seq<u8>, r: int)
    requires
        a.len() == b.len(),
        a != b,
        r >= 0,
    ensures
        (pfx(a, r) == pfx(b, r)) <==> r <= first_diff(a, b),
{
    lemma_first_diff_props(a, b);
    let d = first_diff(a, b);
    assert(d < a.len());
    if r <= d {
        assert(pfx(a, r) =~= pfx(b, r));
    } else {
        let cap = if r <= a.len() {
            r
        } else {
            a.len() as int
        };
        assert(d < cap);
        assert(pfx(a, r)[d] == a[d] && pfx(b, r)[d] == b[d]);
    }
}

/// Longer prefixes keep strings distinct: once every pair is told
/// apart at `r1`, it is told apart at any `r2 >= r1`.
pub proof fn lemma_distinct_monotone(ss: Seq<Seq<u8>>, r1: int, r2: int)
    requires
        0 <= r1 <= r2,
        all_distinct_at(ss, r1),
    ensures
        all_distinct_at(ss, r2),
{
    assert forall|i: int, j: int| 0 <= i < j < ss.len() implies pfx(ss[i], r2) != pfx(
        ss[j],
        r2,
    ) by {
        if pfx(ss[i], r2) == pfx(ss[j], r2) {
            let a = ss[i];
            let b = ss[j];
            assert(pfx(a, r1) =~= pfx(pfx(a, r2), r1));
            assert(pfx(b, r1) =~= pfx(pfx(b, r2), r1));
            assert(pfx(a, r1) == pfx(b, r1));
        }
    }
}

/// Byte order is transitive.
pub proof fn lemma_bytes_lt_trans(a: Seq<u8>, b: Seq<u8>, c: Seq<u8>)
    requires
        bytes_lt(a, b),
        bytes_lt(b, c),
    ensures
        bytes_lt(a, c),
    decreases a.len(),
{
    if a.len() > 0 && b.len() > 0 && c.len() > 0 && a[0] == b[0] && b[0] == c[0] {
        lemma_bytes_lt_trans(a.drop_first(), b.drop_first(), c.drop_first());
    }
}

/// For equal-length strings, the lexicographic order is decided at
/// the first difference.
pub proof fn lemma_lt_iff_fd(a: Seq<u8>, b: Seq<u8>)
    requires
        a.len() == b.len(),
    ensures
        bytes_lt(a, b) <==> (first_diff(a, b) < a.len() && a[first_diff(a, b)] < b[first_diff(
            a,
            b,
        )]),
    decreases a.len(),
{
    lemma_first_diff_props(a, b);
    if a.len() > 0 && a[0] == b[0] {
        let ta = a.drop_first();
        let tb = b.drop_first();
        lemma_lt_iff_fd(ta, tb);
        let d = first_diff(a, b);
        if d < a.len() {
            assert(a[d] == ta[d - 1] && b[d] == tb[d - 1]);
        }
    }
}

/// In sorted order, an outer pair can never share a longer prefix
/// than the pairs between its ends: the middle string is squeezed
/// onto the common prefix of the outer two.
pub proof fn lemma_fd_squeeze(a: Seq<u8>, b: Seq<u8>, c: Seq<u8>)
    requires
        a.len() == b.len() && b.len() == c.len(),
        bytes_lt(a, b) || a == b,
        bytes_lt(b, c) || b == c,
    ensures
        first_diff(a, c) <= first_diff(a, b),
        first_diff(a, c) <= first_diff(b, c),
{
    lemma_first_diff_props(a, b);
    lemma_first_diff_props(b, c);
    lemma_first_diff_props(a, c);
    let d = first_diff(a, c);
    if a == b {
        assert(first_diff(b, c) == d);
    } else if b == c {
        assert(first_diff(a, b) == d);
    } else {
        lemma_lt_iff_fd(a, b);
        lemma_lt_iff_fd(b, c);
        let p = first_diff(a, b);
        if p < d {
            assert(a[p] < b[p]);
            assert(c[p] == a[p]);
            assert forall|m: int| 0 <= m < p implies b[m] == c[m] by {
                assert(b[m] == a[m] && a[m] == c[m]);
            }
            lemma_first_diff_at(b, c, p);
            assert(!(b[p] < c[p]));
            assert(!bytes_lt(b, c));
            assert(false);
        }
        let q = first_diff(b, c);
        if q < d {
            assert(b[q] < c[q]);
            assert(a[q] == b[q]);
            assert(a[q] == c[q]);
            assert(false);
        }
    }
}

/// A sorted run is pairwise sorted.
pub proof fn lemma_sorted_pairwise(ss: Seq<Seq<u8>>, i: int, k: int)
    requires
        forall|j: int|
            0 <= j < ss.len() - 1 ==> bytes_lt(#[trigger] ss[j], ss[j + 1]) || ss[j] == ss[j + 1],
        0 <= i <= k < ss.len(),
    ensures
        bytes_lt(ss[i], ss[k]) || ss[i] == ss[k],
    decreases k - i,
{
    if i < k {
        lemma_sorted_pairwise(ss, i, k - 1);
        if ss[i] != ss[k - 1] && ss[k - 1] != ss[k] {
            lemma_bytes_lt_trans(ss[i], ss[k - 1], ss[k]);
        }
    }
}

/// In lexicographically sorted order the adjacent pairs dominate:
/// any pair's first difference is within the first difference of the
/// last adjacent pair under its upper end.  A scan over adjacent
/// pairs of the sorted strings therefore finds the same maximal
/// requirement as a scan over all pairs.
pub proof fn lemma_adjacent_pair_dominates(ss: Seq<Seq<u8>>, i: int, k: int)
    requires
        forall|x: int, y: int|
            0 <= x < ss.len() && 0 <= y < ss.len() ==> (#[trigger] ss[x]).len() == (
            #[trigger] ss[y]).len(),
        forall|j: int|
            0 <= j < ss.len() - 1 ==> bytes_lt(#[trigger] ss[j], ss[j + 1]) || ss[j] == ss[j + 1],
        0 <= i < k < ss.len(),
    ensures
        first_diff(ss[i], ss[k]) <= first_diff(ss[k - 1], ss[k]),
{
    lemma_sorted_pairwise(ss, i, k - 1);
    lemma_fd_squeeze(ss[i], ss[k - 1], ss[k]);
}

/// The first index at which two equal-length byte strings differ.
fn first_diff_at(a: &Vec<u8>, b: &Vec<u8>) -> (r: usize)
    requires
        a@.len() == b@.len(),
    ensures
        r == first_diff(a@, b@),
{
    let n = a.len();
    let mut i: usize = 0;
    while i < n && a[i] == b[i]
        invariant
            i <= n,
            n == a@.len() == b@.len(),
            forall|k: int| 0 <= k < i ==> a@[k] == b@[k],
        decreases n - i,
    {
        i += 1;
    }
    proof {
        lemma_first_diff_at(a@, b@, i as int);
    }
    i
}

/// The minimal length `L >= floor` such that truncating every string
/// to its first `L` bytes leaves them pairwise distinct.  The value is
/// the largest first-difference over all pairs, plus one, floored at
/// `floor`; by [`lemma_adjacent_pair_dominates`], a scan over the
/// adjacent pairs of the lexicographically sorted strings finds the
/// same maximum.
pub fn shortest_unique_prefix(ids: &Vec<Vec<u8>>, floor: usize) -> (r: usize)
    requires
        forall|i: int, j: int|
            0 <= i < ids@.len() && 0 <= j < ids@.len() ==> #[trigger] ids@[i]@.len()
                == #[trigger] ids@[j]@.len(),
        forall|i: int, j: int| 0 <= i < j < ids@.len() ==> ids@[i]@ != ids@[j]@,
    ensures
        r >= floor,
        all_distinct_at(byte_views(ids@), r as int),
        r > floor ==> !all_distinct_at(byte_views(ids@), r - 1),
{
    let ghost ss = byte_views(ids@);
    let n = ids.len();
    let mut r = floor;
    let ghost mut wit: (int, int) = (0, 0);
    let mut i: usize = 0;
    while i < n
        invariant
            i <= n,
            n == ids@.len(),
            ss == byte_views(ids@),
            r >= floor,
            forall|x: int, y: int|
                0 <= x < y < n && x < i ==> first_diff(#[trigger] ss[x], #[trigger] ss[y]) + 1
                    <= r,
            r > floor ==> 0 <= wit.0 < wit.1 < n && r == first_diff(ss[wit.0], ss[wit.1]) + 1,
            forall|x: int, y: int|
                0 <= x < ids@.len() && 0 <= y < ids@.len() ==> #[trigger] ids@[x]@.len()
                    == #[trigger] ids@[y]@.len(),
            forall|x: int, y: int| 0 <= x < y < ids@.len() ==> ids@[x]@ != ids@[y]@,
        decreases n - i,
    {
        let mut j = i + 1;
        while j < n
            invariant
                i < j <= n || (i + 1 > n && j == i + 1),
                i < n,
                n == ids@.len(),
                ss == byte_views(ids@),
                r >= floor,
                forall|x: int, y: int|
                    0 <= x < y < n && x < i ==> first_diff(#[trigger] ss[x], #[trigger] ss[y]) + 1
                        <= r,
                forall|y: int| i < y < j ==> first_diff(ss[i as int], #[trigger] ss[y]) + 1 <= r,
                r > floor ==> 0 <= wit.0 < wit.1 < n && r == first_diff(ss[wit.0], ss[wit.1]) + 1,
                forall|x: int, y: int|
                    0 <= x < ids@.len() && 0 <= y < ids@.len() ==> #[trigger] ids@[x]@.len()
                        == #[trigger] ids@[y]@.len(),
                forall|x: int, y: int| 0 <= x < y < ids@.len() ==> ids@[x]@ != ids@[y]@,
            decreases n - j,
        {
            let d = first_diff_at(&ids[i], &ids[j]);
            let len_i = ids[i].len();
            proof {
                lemma_first_diff_props(ss[i as int], ss[j as int]);
                if first_diff(ss[i as int], ss[j as int]) == ss[i as int].len() {
                    assert(ss[i as int] == ss[j as int]);
                    assert(false);
                }
                assert(d < len_i);
            }
            if d + 1 > r {
                r = d + 1;
                proof {
                    wit = (i as int, j as int);
                }
            }
            j += 1;
        }
        i += 1;
    }
    proof {
        assert forall|x: int, y: int| 0 <= x < y < ss.len() implies pfx(ss[x], r as int) != pfx(
            ss[y],
            r as int,
        ) by {
            assert(first_diff(ss[x], ss[y]) + 1 <= r);
            lemma_pfx_iff(ss[x], ss[y], r as int);
        }
        if r > floor {
            let a = ss[wit.0];
            let b = ss[wit.1];
            lemma_pfx_iff(a, b, r - 1);
            assert(pfx(a, r - 1) == pfx(b, r - 1));
        }
    }
    r
}

/// The minimal display length that keeps the hexadecimal identifiers
/// of `tasks` pairwise distinct; zero when the store is empty or holds
/// one task.  A caller that wants a floor takes the maximum of the
/// result and its floor.
pub fn shortest_id_length(tasks: &[Task]) -> (r: usize)
    requires
        forall|i: int, j: int|
            0 <= i < j < tasks@.len() ==> (#[trigger] tasks@[i]@).id != (#[trigger] tasks@[j]@).id,
    ensures
        all_distinct_at(tasks@.map_values(|t: Task| id_hex_bytes(t@.id)), r as int),
        r > 0 ==> !all_distinct_at(tasks@.map_values(|t: Task| id_hex_bytes(t@.id)), r - 1),
{
    let ghost target = tasks@.map_values(|t: Task| id_hex_bytes(t@.id));
    let n = tasks.len();
    let mut ids: Vec<Vec<u8>> = Vec::new();
    let mut i: usize = 0;
    while i < n
        invariant
            i <= n,
            n == tasks@.len(),
            ids@.len() == i,
            forall|k: int| 0 <= k < i ==> #[trigger] ids@[k]@ == id_hex_bytes(tasks@[k]@.id),
            target == tasks@.map_values(|t: Task| id_hex_bytes(t@.id)),
        decreases n - i,
    {
        ids.push(tasks[i].id().hex_bytes());
        i += 1;
    }
    proof {
        assert(byte_views(ids@) =~= target);
        assert forall|x: int, y: int| 0 <= x < y < ids@.len() implies ids@[x]@ != ids@[y]@ by {
            if ids@[x]@ == ids@[y]@ {
                lemma_hex_injective(tasks@[x]@.id, tasks@[y]@.id);
            }
        }
        assert forall|x: int, y: int|
            0 <= x < ids@.len() && 0 <= y < ids@.len() implies #[trigger] ids@[x]@.len()
            == #[trigger] ids@[y]@.len() by {
            assert(ids@[x]@.len() == 32 && ids@[y]@.len() == 32);
        }
    }
    shortest_unique_prefix(&ids, 0)
}

/// The user-supplied bytes `p` select the identifier `id` when they
/// are a prefix of its full hexadecimal rendering.
pub open spec fn id_matches_prefix(id: u128, p: Seq<u8>) -> bool {
    p.is_prefix_of(id_hex_bytes(id))
}

/// How many records of `s` the prefix `p` selects.
pub open spec fn match_count(s: Seq<TaskView>, p: Seq<u8>) -> int
    decreases s.len(),
{
    if s.len() == 0 {
        0
    } else {
        match_count(s.drop_last(), p) + if id_matches_prefix(s.last().id, p) {
            1int
        } else {
            0int
        }
    }
}

/// Prefix resolution failed: either nothing matched, or the prefix
/// did not single out one record.
#[derive(Debug, Clone, Copy, PartialEq, Eq, Structural)]
pub enum ResolveError {
    NotFound,
    Ambiguous,
}

impl ResolveError {
    /// A diagnostic line for reporting.
    pub fn message(&self) -> (r: &'static str)
        ensures
            r@.len() > 0,
    {
        let r = match self {
            ResolveError::NotFound => "No task found with that id",
            ResolveError::Ambiguous => "More than one possible task was found with that id",
        };
        proof {
            reveal_strlit("No task found with that id");
            reveal_strlit("More than one possible task was found with that id");
        }
        r
    }
}

/// Whether the user-supplied prefix selects this identifier.
fn matches_prefix(id: TaskId, prefix: &str) -> (r: bool)
    ensures
        r == id_matches_prefix(id@, prefix.spec_bytes()),
{
    let ghost ps = prefix.spec_bytes();
    let p = prefix.as_bytes();
    let h = id.hex_bytes();
    let pl = p.len();
    if pl > h.len() {
        return false;
    }
    let mut i: usize = 0;
    while i < pl
        invariant
            i <= pl,
            pl == ps.len(),
            ps == prefix.spec_bytes(),
            p@ == ps,
            h@ == id_hex_bytes(id@),
            pl <= h@.len(),
            forall|k: int| 0 <= k < i ==> ps[k] == h@[k],
        decreases pl - i,
    {
        if p[i] != h[i] {
            proof {
                if ps.is_prefix_of(id_hex_bytes(id@)) {
                    let sub = id_hex_bytes(id@).subrange(0, ps.len() as int);
                    assert(ps == sub);
                    assert(ps[i as int] == sub[i as int]);
                    assert(sub[i as int] == id_hex_bytes(id@)[i as int]);
                    assert(false);
                }
            }
            return false;
        }
        i += 1;
    }
    proof {
        assert(ps =~= id_hex_bytes(id@).subrange(0, ps.len() as int));
    }
    true
}

/// Counts the records selected by `prefix` and notes the first one.
fn count_matches(tasks: &TaskList, prefix: &str) -> (r: (usize, usize))
    ensures
        r.0 as int == match_count(tasks@, prefix.spec_bytes()),
        r.0 > 0 ==> r.1 < tasks@.len() && id_matches_prefix(
            tasks@[r.1 as int].id,
            prefix.spec_bytes(),
        ),
        r.0 == 1 ==> forall|k: int|
            0 <= k < tasks@.len() && k != r.1 as int ==> !id_matches_prefix(
                (#[trigger] tasks@[k]).id,
                prefix.spec_bytes(),
            ),
{
    let ghost ps = prefix.spec_bytes();
    let n = tasks.len();
    let mut count: usize = 0;
    let mut first: usize = 0;
    let mut i: usize = 0;
    while i < n
        invariant
            i <= n,
            n == tasks@.len(),
            count as int == match_count(tasks@.take(i as int), ps),
            ps == prefix.spec_bytes(),
            count <= i,
            count > 0 ==> first < i && id_matches_prefix(tasks@[first as int].id, ps),
            count == 0 ==> forall|k: int|
                0 <= k < i ==> !id_matches_prefix((#[trigger] tasks@[k]).id, ps),
            count == 1 ==> forall|k: int|
                0 <= k < i && k != first as int ==> !id_matches_prefix(
                    (#[trigger] tasks@[k]).id,
                    ps,
                ),
        decreases n - i,
    {
        proof {
            assert(tasks@.take(i + 1).drop_last() =~= tasks@.take(i as int));
            assert(tasks@.take(i + 1).last() == tasks@[i as int]);
        }
        if matches_prefix(tasks.get(i).id(), prefix) {
            if count == 0 {
                first = i;
            }
            count += 1;
        }
        i += 1;
    }
    proof {
        assert(tasks@.take(n as int) =~= tasks@);
    }
    (count, first)
}

/// Removes the task selected by the identifier prefix.  Exactly one
/// record must match: no match or more than one leaves the store
/// untouched and reports why.
pub fn remove(id: &str, tasks: &mut TaskList) -> (r: Result<(), ResolveError>)
    ensures
        match_count(old(tasks)@, id.spec_bytes()) == 0 ==> r == Err::<(), ResolveError>(
            ResolveError::NotFound,
        ) && final(tasks)@ == old(tasks)@,
        match_count(old(tasks)@, id.spec_bytes()) > 1 ==> r == Err::<(), ResolveError>(
            ResolveError::Ambiguous,
        ) && final(tasks)@ == old(tasks)@,
        match_count(old(tasks)@, id.spec_bytes()) == 1 ==> r == Ok::<(), ResolveError>(()) && (
        exists|m: int|
            0 <= m < old(tasks)@.len() && id_matches_prefix(
                (#[trigger] old(tasks)@[m]).id,
                id.spec_bytes(),
            ) && final(tasks)@ == old(tasks)@.filter(
                |t: TaskView| t.id != old(tasks)@[m].id,
            )),
{
    let (count, first) = count_matches(tasks, id);
    if count == 0 {
        Err(ResolveError::NotFound)
    } else if count > 1 {
        Err(ResolveError::Ambiguous)
    } else {
        let ghost m = first as int;
        let target = tasks.get(first).id();
        tasks.remove(&target);
        proof {
            assert(0 <= m < old(tasks)@.len() && id_matches_prefix(old(tasks)@[m].id,
                id.spec_bytes()) && final(tasks)@ == old(tasks)@.filter(
                |t: TaskView| t.id != old(tasks)@[m].id,
            ));
        }
        Ok(())
    }
}

/// Presentation order: by due instant, an absent one first.
pub open spec fn due_le(a: TaskView, b: TaskView) -> bool {
    due_lt(a.due, b.due) || a.due == b.due
}

/// Adjacent records are in ascending due order.
pub open spec fn sorted_by_due(s: Seq<TaskView>) -> bool {
    forall|i: int| 0 <= i < s.len() - 1 ==> due_le(#[trigger] s[i], s[i + 1])
}

/// Whether `a` is due strictly before `b`.
fn due_lt_exec(a: &Task, b: &Task) -> (r: bool)
    ensures
        r == due_lt(a@.due, b@.due),
{
    match (a.due(), b.due()) {
        (None, Some(_)) => true,
        (Some(x), Some(y)) => {
            x.date.year < y.date.year || (x.date.year == y.date.year && (x.date.month
                < y.date.month || (x.date.month == y.date.month && (x.date.day < y.date.day || (
            x.date.day == y.date.day && (x.time.hour < y.time.hour || (x.time.hour == y.time.hour
                && x.time.minute < y.time.minute)))))))
        },
        _ => false,
    }
}

/// Sorts records into presentation order (by due instant), keeping
/// exactly the same records.  Ties keep their relative order.
pub fn sort_by_due(tasks: Vec<Task>) -> (r: Vec<Task>)
    ensures
        sorted_by_due(task_views(r@)),
        task_views(r@).to_multiset() == task_views(tasks@).to_multiset(),
{
    broadcast use vstd::seq_lib::group_to_multiset_ensures;

    let ghost input = task_views(tasks@);
    let mut rest = tasks;
    let mut out: Vec<Task> = Vec::new();
    while rest.len() > 0
        invariant
            sorted_by_due(task_views(out@)),
            task_views(out@).to_multiset().add(task_views(rest@).to_multiset())
                =~= input.to_multiset(),
            forall|k: int, j: int|
                0 <= k < out@.len() && 0 <= j < rest@.len() ==> due_le(
                    #[trigger] task_views(out@)[k],
                    #[trigger] task_views(rest@)[j],
                ),
        decreases rest@.len(),
    {
        let n = rest.len();
        let mut mi: usize = 0;
        let mut q: usize = 1;
        while q < n
            invariant
                mi < q <= n,
                n == rest@.len(),
                forall|k: int|
                    0 <= k < q ==> due_le(task_views(rest@)[mi as int], #[trigger] task_views(
                        rest@,
                    )[k]),
            decreases n - q,
        {
            if due_lt_exec(&rest[q], &rest[mi]) {
                mi = q;
            }
            q += 1;
        }
        let ghost before = task_views(rest@);
        let ghost out_before = task_views(out@);
        let t = rest.remove(mi);
        out.push(t);
        proof {
            broadcast use vstd::seq_lib::group_to_multiset_ensures;

            assert(t@ == before[mi as int]);
            assert(task_views(out@) =~= out_before.push(t@));
            assert(task_views(rest@) =~= before.remove(mi as int));
            assert(before.contains(t@));
            assert(before.to_multiset().count(t@) > 0);
            assert(task_views(out@).to_multiset() =~= out_before.to_multiset().insert(t@));
            assert(task_views(rest@).to_multiset() =~= before.to_multiset().remove(t@));
            assert(task_views(out@).to_multiset().add(task_views(rest@).to_multiset())
                =~= input.to_multiset());
        }
    }
    proof {
        assert(task_views(rest@).to_multiset() =~= Multiset::empty());
    }
    out
}

/// The lines of all records, one per record via `f`, newline-joined.
pub open spec fn join_lines(ls: Seq<Seq<char>>) -> Seq<char>
    decreases ls.len(),
{
    if ls.len() == 0 {
        Seq::empty()
    } else if ls.len() == 1 {
        ls[0]
    } else {
        join_lines(ls.drop_last()) + seq!['\n'] + ls.last()
    }
}

/// The rendered line of every record, in order.
pub open spec fn fmt_all<T: TaskFormatter>(f: &T, ss: Seq<TaskView>) -> Seq<Seq<char>> {
    Seq::new(ss.len(), |i: int| f.spec_format(ss[i]))
}

/// Renders the records in the given order, newline-joined.
pub fn render_lines<T: TaskFormatter>(tasks: &[Task], f: &T) -> (r: String)
    ensures
        r@ == join_lines(fmt_all(f, tasks@.map_values(|t: Task| t@))),
{
    let ghost ss = tasks@.map_values(|t: Task| t@);
    let ghost lines = fmt_all(f, ss);
    let mut out = String::new();
    let n = tasks.len();
    let mut i: usize = 0;
    proof {
        assert(out@ =~= join_lines(lines.take(0)));
    }
    while i < n
        invariant
            i <= n,
            n == tasks@.len(),
            ss == tasks@.map_values(|t: Task| t@),
            lines == fmt_all(f, ss),
            out@ == join_lines(lines.take(i as int)),
        decreases n - i,
    {
        proof {
            assert(lines.take(i + 1).drop_last() =~= lines.take(i as int));
            assert(lines.take(i + 1).last() == lines[i as int]);
        }
        if i > 0 {
            let nl = "\n";
            proof {
                reveal_strlit("\n");
                assert(nl@ =~= seq!['\n']);
            }
            out.append(nl);
        }
        let line = f.format(&tasks[i]);
        out.append(line.as_str());
        proof {
            if i == 0 {
                assert(join_lines(lines.take(1)) == lines[0]);
                assert(out@ =~= lines[0]);
            }
        }
        i += 1;
    }
    proof {
        assert(lines.take(n as int) =~= lines);
    }
    out
}

/// Renders all records sorted into presentation order (by due
/// instant), one line each, newline-joined: the result is the join of
/// the per-record lines over some due-sorted arrangement of exactly
/// the given records.
pub fn list<T: TaskFormatter>(tasks: &[Task], f: &T) -> (r: String)
    ensures
        exists|ss: Seq<TaskView>|
            sorted_by_due(ss) && ss.to_multiset() == tasks@.map_values(
                |t: Task| t@,
            ).to_multiset() && r@ == join_lines(fmt_all(f, ss)),
{
    let mut owned: Vec<Task> = Vec::new();
    let n = tasks.len();
    let mut i: usize = 0;
    while i < n
        invariant
            i <= n,
            n == tasks@.len(),
            owned@.len() == i,
            forall|k: int| 0 <= k < i ==> #[trigger] owned@[k]@ == tasks@[k]@,
        decreases n - i,
    {
        owned.push(tasks[i].clone());
        i += 1;
    }
    proof {
        assert(task_views(owned@) =~= tasks@.map_values(|t: Task| t@));
    }
    let sorted = sort_by_due(owned);
    let r = render_lines(sorted.as_slice(), f);
    proof {
        let ss = task_views(sorted@);
        assert(sorted_by_due(ss) && ss.to_multiset() == tasks@.map_values(
            |t: Task| t@,
        ).to_multiset() && r@ == join_lines(fmt_all(f, ss)));
    }
    r
}

/// Applies one parsed instruction to the store.
///
/// An addition appends its task.  An edit or a removal first resolves
/// the identifier prefix against the current contents: when it selects
/// no record or more than one, the store is left untouched and the
/// failure is reported for the caller to log — a failing instruction
/// is a no-op, never a halt.  A blank instruction does nothing.
pub fn apply_program(program: Program, tasks: &mut TaskList) -> (r: Result<(), ResolveError>)
    ensures
        program@ matches ProgramView::Empty ==> r == Ok::<(), ResolveError>(()) && final(tasks)@
            == old(tasks)@,
        program@ matches ProgramView::Add(tv) ==> r == Ok::<(), ResolveError>(()) && final(tasks)@
            =~= old(tasks)@.push(tv),
        program@ matches ProgramView::Remove(idp) ==> ({
            let p = encode_utf8(idp);
            &&& match_count(old(tasks)@, p) == 0 ==> r == Err::<(), ResolveError>(
                ResolveError::NotFound,
            ) && final(tasks)@ == old(tasks)@
            &&& match_count(old(tasks)@, p) > 1 ==> r == Err::<(), ResolveError>(
                ResolveError::Ambiguous,
            ) && final(tasks)@ == old(tasks)@
            &&& match_count(old(tasks)@, p) == 1 ==> r == Ok::<(), ResolveError>(()) && (exists|m: int|
                0 <= m < old(tasks)@.len() && id_matches_prefix((#[trigger] old(tasks)@[m]).id, p)
                    && final(tasks)@ == old(tasks)@.filter(
                    |t: TaskView| t.id != old(tasks)@[m].id,
                ))
        }),
        program@ matches ProgramView::Edit { id: idp, name, due } ==> ({
            let p = encode_utf8(idp);
            &&& match_count(old(tasks)@, p) == 0 ==> r == Err::<(), ResolveError>(
                ResolveError::NotFound,
            ) && final(tasks)@ == old(tasks)@
            &&& match_count(old(tasks)@, p) > 1 ==> r == Err::<(), ResolveError>(
                ResolveError::Ambiguous,
            ) && final(tasks)@ == old(tasks)@
            &&& match_count(old(tasks)@, p) == 1 ==> r == Ok::<(), ResolveError>(()) && (exists|m: int|
                0 <= m < old(tasks)@.len() && id_matches_prefix((#[trigger] old(tasks)@[m]).id, p)
                    && final(tasks)@ =~= old(tasks)@.update(
                    m,
                    (TaskView { id: old(tasks)@[m].id, name, due }),
                ))
        }),
{
    match program {
        Program::Empty => Ok(()),
        Program::Add(task) => {
            tasks.add(task);
            Ok(())
        },
        Program::Remove(idp) => {
            let idstr = idp.as_str();
            proof {
                assert(idstr.spec_bytes() == encode_utf8(idp@));
            }
            remove(idstr, tasks)
        },
        Program::Edit { id: idp, name, due } => {
            let idstr = idp.as_str();
            proof {
                assert(idstr.spec_bytes() == encode_utf8(idp@));
            }
            let (count, first) = count_matches(tasks, idstr);
            if count == 0 {
                Err(ResolveError::NotFound)
            } else if count > 1 {
                Err(ResolveError::Ambiguous)
            } else {
                let ghost m = first as int;
                let new_task = tasks.get(first).clone().with_name(name).with_due(due);
                proof {
                    crate::task::lemma_find_id(tasks@, new_task@.id);
                    let f = crate::task::find_id(tasks@, new_task@.id);
                    assert(tasks@[m].id == new_task@.id);
                    if f == -1 {
                        assert(false);
                    }
                    if f != m {
                        assert(tasks@[f].id == tasks@[m].id);
                        assert(id_matches_prefix(tasks@[f].id, idstr.spec_bytes()));
                        assert(false);
                    }
                }
                match tasks.edit(new_task) {
                    Ok(_prev) => {
                        proof {
                            assert(tasks@ =~= old(tasks)@.update(
                                m,
                                (TaskView { id: old(tasks)@[m].id, name: name@, due }),
                            ));
                        }
                        Ok(())
                    },
                    Err(_) => Err(ResolveError::NotFound),
                }
            }
        },
    }
}

} // verus!
