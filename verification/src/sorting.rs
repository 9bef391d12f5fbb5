//! Stable ordering of the entries of a directory.
use vstd::prelude::*;

use crate::config::{SortDirection, SortType};
use crate::tools::FileNode;

verus! {

/// Byte-wise lexicographic order, the order of `String`s: `a` comes strictly
/// before `b`.
pub open spec fn bytes_less(a: Seq<u8>, b: Seq<u8>) -> bool
    decreases a.len(),
{
    if a.len() == 0 {
        b.len() > 0
    } else if b.len() == 0 {
        false
    } else if a[0] != b[0] {
        a[0] < b[0]
    } else {
        bytes_less(a.drop_first(), b.drop_first())
    }
}

/// The UTF-8 bytes of a node's name.
pub open spec fn name_bytes(n: FileNode) -> Seq<u8> {
    vstd::utf8::encode_utf8(n.name@)
}

/// `a` is listed strictly before `b` under the sort type `st`: by size, by
/// name (byte-wise), or by the time last modified, ascending for `Up` and
/// descending for `Down`. Natural order leaves the listing as it is, so under
/// it no entry goes before another.
pub open spec fn goes_before(st: SortType, a: FileNode, b: FileNode) -> bool {
    match st {
        SortType::Size(SortDirection::Up) => a.size@ < b.size@,
        SortType::Size(SortDirection::Down) => b.size@ < a.size@,
        SortType::Alphabetical(SortDirection::Up) => bytes_less(name_bytes(a), name_bytes(b)),
        SortType::Alphabetical(SortDirection::Down) => bytes_less(name_bytes(b), name_bytes(a)),
        SortType::Modification(SortDirection::Up) => a.modified < b.modified,
        SortType::Modification(SortDirection::Down) => b.modified < a.modified,
        SortType::Natural(_) => false,
    }
}

/// Neither of `a` and `b` goes before the other.
pub open spec fn same_rank(st: SortType, a: FileNode, b: FileNode) -> bool {
    !goes_before(st, a, b) && !goes_before(st, b, a)
}

/// No entry of `s` goes before an entry listed ahead of it.
pub open spec fn sorted_by(st: SortType, s: Seq<FileNode>) -> bool {
    forall|i: int, j: int| 0 <= i < j < s.len() ==> !goes_before(st, #[trigger] s[j], #[trigger] s[i])
}

/// `output` lists the entries of `input` rearranged by `p` (`output[k]` is
/// `input[p[k]]`), and entries of the same rank keep their relative order.
pub open spec fn stable_arrangement(
    st: SortType,
    input: Seq<FileNode>,
    output: Seq<FileNode>,
    p: Seq<int>,
) -> bool {
    &&& p.len() == input.len()
    &&& output.len() == input.len()
    &&& forall|k: int| 0 <= k < p.len() ==> 0 <= #[trigger] p[k] < input.len()
    &&& forall|k: int| 0 <= k < p.len() ==> #[trigger] output[k] == input[p[k]]
    &&& forall|a: int, b: int| 0 <= a < b < p.len() ==> #[trigger] p[a] != #[trigger] p[b]
    &&& forall|a: int, b: int|
        0 <= a < b < p.len() && same_rank(st, #[trigger] output[a], #[trigger] output[b]) ==> p[a]
            < p[b]
}

/// `output` is `input` sorted by `st` without reordering entries of the same
/// rank: what a stable sort such as `slice::sort_by` gives.
pub open spec fn stably_sorted(st: SortType, input: Seq<FileNode>, output: Seq<FileNode>) -> bool {
    &&& sorted_by(st, output)
    &&& exists|p: Seq<int>| stable_arrangement(st, input, output, p)
}

proof fn lemma_bytes_less_irreflexive(a: Seq<u8>)
    ensures
        !bytes_less(a, a),
    decreases a.len(),
{
    if a.len() > 0 {
        lemma_bytes_less_irreflexive(a.drop_first());
    }
}

proof fn lemma_bytes_less_transitive(a: Seq<u8>, b: Seq<u8>, c: Seq<u8>)
    requires
        bytes_less(a, b),
        bytes_less(b, c),
    ensures
        bytes_less(a, c),
    decreases a.len(),
{
    if a.len() > 0 && b.len() > 0 && c.len() > 0 {
        if a[0] == b[0] && b[0] == c[0] {
            lemma_bytes_less_transitive(a.drop_first(), b.drop_first(), c.drop_first());
        }
    }
}

proof fn lemma_bytes_less_total(a: Seq<u8>, b: Seq<u8>)
    ensures
        a == b || bytes_less(a, b) || bytes_less(b, a),
    decreases a.len(),
{
    if a.len() > 0 && b.len() > 0 && a[0] == b[0] {
        lemma_bytes_less_total(a.drop_first(), b.drop_first());
        if a.drop_first() == b.drop_first() {
            assert(a =~= seq![a[0]] + a.drop_first());
            assert(b =~= seq![b[0]] + b.drop_first());
        }
    } else if a.len() == 0 && b.len() == 0 {
        assert(a =~= b);
    }
}

/// Whatever goes before `b` goes before `c` too, unless `c` goes before `b`.
proof fn lemma_goes_before_split(st: SortType, a: FileNode, b: FileNode, c: FileNode)
    requires
        goes_before(st, a, b),
    ensures
        goes_before(st, a, c) || goes_before(st, c, b),
{
    match st {
        SortType::Alphabetical(SortDirection::Up) => {
            lemma_bytes_less_total(name_bytes(a), name_bytes(c));
            if bytes_less(name_bytes(c), name_bytes(a)) {
                lemma_bytes_less_transitive(name_bytes(c), name_bytes(a), name_bytes(b));
            }
        },
        SortType::Alphabetical(SortDirection::Down) => {
            lemma_bytes_less_total(name_bytes(b), name_bytes(c));
            if bytes_less(name_bytes(c), name_bytes(b)) {
                lemma_bytes_less_transitive(name_bytes(c), name_bytes(b), name_bytes(a));
            }
        },
        _ => {},
    }
}

/// No entry goes before an entry that goes before it.
proof fn lemma_goes_before_asymmetric(st: SortType, a: FileNode, b: FileNode)
    requires
        goes_before(st, a, b),
    ensures
        !goes_before(st, b, a),
{
    match st {
        SortType::Alphabetical(SortDirection::Up) => {
            if bytes_less(name_bytes(b), name_bytes(a)) {
                lemma_bytes_less_transitive(name_bytes(a), name_bytes(b), name_bytes(a));
                lemma_bytes_less_irreflexive(name_bytes(a));
            }
        },
        SortType::Alphabetical(SortDirection::Down) => {
            if bytes_less(name_bytes(a), name_bytes(b)) {
                lemma_bytes_less_transitive(name_bytes(a), name_bytes(b), name_bytes(a));
                lemma_bytes_less_irreflexive(name_bytes(a));
            }
        },
        _ => {},
    }
}

/// Moving the entry at `i` of `before` back to position `j`, where the entries
/// before `j` do not follow it and those from `j` on follow it, extends the
/// sorted, stably arranged prefix by one entry.
proof fn lemma_insertion_step(
    st: SortType,
    input: Seq<FileNode>,
    before: Seq<FileNode>,
    i: int,
    j: int,
    old_perm: Seq<int>,
) -> (perm: Seq<int>)
    requires
        0 <= j <= i < before.len(),
        before.len() == input.len(),
        forall|k: int| i <= k < before.len() ==> #[trigger] before[k] == input[k],
        sorted_by(st, before.take(i)),
        stable_arrangement(st, input.take(i), before.take(i), old_perm),
        forall|k: int|
            0 <= k < j ==> !goes_before(st, before[i], #[trigger] before.remove(i)[k]),
        forall|k: int|
            j <= k < i ==> goes_before(st, before[i], #[trigger] before.remove(i)[k]),
        sorted_by(st, input) ==> before == input,
    ensures
        ({
            let after = before.remove(i).insert(j, before[i]);
            &&& forall|k: int| i + 1 <= k < before.len() ==> #[trigger] after[k] == input[k]
            &&& sorted_by(st, after.take(i + 1))
            &&& stable_arrangement(st, input.take(i + 1), after.take(i + 1), perm)
            &&& sorted_by(st, input) ==> after == input
        }),
{
    let x = before[i];
    let removed = before.remove(i);
    let after = removed.insert(j, x);
    let old_prefix = before.take(i);
    let new_prefix = after.take(i + 1);
    let perm = old_perm.take(j).push(i) + old_perm.skip(j);
    assert(forall|k: int| 0 <= k < i ==> removed[k] == old_prefix[k]);
    assert(forall|k: int| 0 <= k < j ==> new_prefix[k] == old_prefix[k]);
    assert(new_prefix[j] == x);
    assert(forall|k: int| j < k <= i ==> new_prefix[k] == old_prefix[k - 1]);
    assert(forall|k: int| 0 <= k < j ==> perm[k] == old_perm[k]);
    assert(perm[j] == i);
    assert(forall|k: int| j < k <= i ==> perm[k] == old_perm[k - 1]);
    assert forall|a: int, b: int| 0 <= a < b < i + 1 implies !goes_before(
        st,
        #[trigger] new_prefix[b],
        #[trigger] new_prefix[a],
    ) by {
        if b == j {
            assert(new_prefix[a] == removed[a]);
        } else if a == j {
            assert(new_prefix[b] == removed[b - 1]);
            assert(goes_before(st, x, removed[b - 1]));
            lemma_goes_before_asymmetric(st, x, removed[b - 1]);
        } else if b < j {
            assert(new_prefix[b] == old_prefix[b]);
            assert(new_prefix[a] == old_prefix[a]);
        } else if a > j {
            assert(new_prefix[b] == old_prefix[b - 1]);
            assert(new_prefix[a] == old_prefix[a - 1]);
        } else {
            assert(new_prefix[b] == old_prefix[b - 1]);
            assert(new_prefix[a] == old_prefix[a]);
        }
    }
    let input_prefix = input.take(i + 1);
    assert(input_prefix[i] == x);
    assert forall|k: int| 0 <= k < perm.len() implies #[trigger] new_prefix[k]
        == input_prefix[perm[k]] by {
        if k < j {
            assert(old_prefix[k] == input.take(i)[old_perm[k]]);
        } else if k > j {
            assert(old_prefix[k - 1] == input.take(i)[old_perm[k - 1]]);
        }
    }
    assert forall|a: int, b: int|
        0 <= a < b < perm.len() && same_rank(
            st,
            #[trigger] new_prefix[a],
            #[trigger] new_prefix[b],
        ) implies perm[a] < perm[b] by {
        if b == j {
            assert(0 <= old_perm[a] < i);
        } else if a == j {
            assert(new_prefix[b] == removed[b - 1]);
            assert(goes_before(st, x, removed[b - 1]));
        } else if b < j {
            assert(new_prefix[a] == old_prefix[a] && new_prefix[b] == old_prefix[b]);
        } else if a > j {
            assert(new_prefix[a] == old_prefix[a - 1] && new_prefix[b] == old_prefix[b - 1]);
        } else {
            assert(new_prefix[a] == old_prefix[a] && new_prefix[b] == old_prefix[b - 1]);
        }
    }
    assert forall|a: int, b: int| 0 <= a < b < perm.len() implies #[trigger] perm[a]
        != #[trigger] perm[b] by {
        if b == j {
            assert(0 <= old_perm[a] < i);
        } else if a == j {
            assert(0 <= old_perm[b - 1] < i);
        } else if b < j {
        } else if a > j {
            assert(old_perm[a - 1] != old_perm[b - 1]);
        } else {
            assert(old_perm[a] != old_perm[b - 1]);
        }
    }
    assert forall|k: int| 0 <= k < perm.len() implies 0 <= #[trigger] perm[k]
        < input_prefix.len() by {
        if k < j {
            assert(0 <= old_perm[k] < i);
        } else if k > j {
            assert(0 <= old_perm[k - 1] < i);
        }
    }
    assert forall|k: int| i + 1 <= k < before.len() implies #[trigger] after[k] == input[k] by {
        assert(after[k] == removed[k - 1]);
        assert(removed[k - 1] == before[k]);
    }
    if sorted_by(st, input) {
        if j < i {
            assert(goes_before(st, x, removed[j]));
            assert(removed[j] == input[j]);
            assert(!goes_before(st, input[i], input[j]));
        }
        assert(after =~= input);
    }
    perm
}

/// What a sorted listing looks like in terms of the entries themselves: by
/// size, byte counts never decrease (`Up`) or never increase (`Down`) down the
/// listing; by modification time, likewise for the times; by name, no name's
/// UTF-8 bytes come before those of a name listed ahead of it (`Up`), or after
/// them (`Down`).
pub proof fn lemma_sorted_listing_order(st: SortType, s: Seq<FileNode>)
    requires
        sorted_by(st, s),
    ensures
        st == SortType::Size(SortDirection::Up) ==> forall|i: int, j: int|
            0 <= i < j < s.len() ==> #[trigger] s[i].size@ <= #[trigger] s[j].size@,
        st == SortType::Size(SortDirection::Down) ==> forall|i: int, j: int|
            0 <= i < j < s.len() ==> #[trigger] s[i].size@ >= #[trigger] s[j].size@,
        st == SortType::Modification(SortDirection::Up) ==> forall|i: int, j: int|
            0 <= i < j < s.len() ==> #[trigger] s[i].modified <= #[trigger] s[j].modified,
        st == SortType::Modification(SortDirection::Down) ==> forall|i: int, j: int|
            0 <= i < j < s.len() ==> #[trigger] s[i].modified >= #[trigger] s[j].modified,
        st == SortType::Alphabetical(SortDirection::Up) ==> forall|i: int, j: int|
            0 <= i < j < s.len() ==> !bytes_less(
                vstd::utf8::encode_utf8(#[trigger] s[j].name@),
                vstd::utf8::encode_utf8(#[trigger] s[i].name@),
            ),
        st == SortType::Alphabetical(SortDirection::Down) ==> forall|i: int, j: int|
            0 <= i < j < s.len() ==> !bytes_less(
                vstd::utf8::encode_utf8(#[trigger] s[i].name@),
                vstd::utf8::encode_utf8(#[trigger] s[j].name@),
            ),
{
    assert forall|i: int, j: int| 0 <= i < j < s.len() implies !goes_before(
        st,
        #[trigger] s[j],
        #[trigger] s[i],
    ) by {}
}

/// Byte-wise order, spelled out: `a` comes before `b` iff `a` is a proper
/// prefix of `b`, or at the first position where they differ `a` has the
/// smaller byte.
pub proof fn lemma_bytes_less_meaning(a: Seq<u8>, b: Seq<u8>)
    ensures
        bytes_less(a, b) <==> (a.len() < b.len() && a == b.take(a.len() as int)) || exists|k: int|
            0 <= k < a.len() && k < b.len() && a.take(k) == b.take(k) && a[k] < b[k],
    decreases a.len(),
{
    if a.len() > 0 && b.len() > 0 {
        lemma_bytes_less_meaning(a.drop_first(), b.drop_first());
        let a1 = a.drop_first();
        let b1 = b.drop_first();
        if a[0] == b[0] {
            if a1.len() < b1.len() && a1 == b1.take(a1.len() as int) {
                assert forall|i: int| 0 <= i < a.len() implies a[i] == b.take(a.len() as int)[i] by {
                    if i > 0 {
                        assert(a[i] == a1[i - 1]);
                        assert(b1.take(a1.len() as int)[i - 1] == b[i]);
                    }
                }
                assert(a =~= b.take(a.len() as int));
            }
            if a.len() < b.len() && a == b.take(a.len() as int) {
                assert(a1 =~= b1.take(a1.len() as int));
            }
            if exists|k: int| 0 <= k < a1.len() && k < b1.len() && a1.take(k) == b1.take(k) && a1[k] < b1[k] {
                let k = choose|k: int| 0 <= k < a1.len() && k < b1.len() && a1.take(k) == b1.take(k) && a1[k] < b1[k];
                assert(a.take(k + 1) =~= seq![a[0]] + a1.take(k));
                assert(b.take(k + 1) =~= seq![b[0]] + b1.take(k));
                assert(a[k + 1] == a1[k]);
            }
            if exists|k: int| 0 <= k < a.len() && k < b.len() && a.take(k) == b.take(k) && a[k] < b[k] {
                let k = choose|k: int| 0 <= k < a.len() && k < b.len() && a.take(k) == b.take(k) && a[k] < b[k];
                assert(k > 0);
                assert(a1.take(k - 1) =~= a.take(k).drop_first());
                assert(b1.take(k - 1) =~= b.take(k).drop_first());
                assert(a1[k - 1] == a[k]);
            }
        } else {
            if a[0] < b[0] {
                assert(a.take(0) =~= b.take(0));
            }
            if a.len() < b.len() && a == b.take(a.len() as int) {
                assert(a[0] == b.take(a.len() as int)[0]);
            }
            if exists|k: int| 0 <= k < a.len() && k < b.len() && a.take(k) == b.take(k) && a[k] < b[k] {
                let k = choose|k: int| 0 <= k < a.len() && k < b.len() && a.take(k) == b.take(k) && a[k] < b[k];
                if k > 0 {
                    assert(a.take(k)[0] == b.take(k)[0]);
                }
            }
        }
    } else if a.len() == 0 {
        if b.len() > 0 {
            assert(a =~= b.take(0));
        }
    }
}

/// An arrangement of `n` entries with no index used twice uses every index.
proof fn lemma_arrangement_onto(p: Seq<int>, n: int, v: int)
    requires
        p.len() == n,
        forall|k: int| 0 <= k < n ==> 0 <= #[trigger] p[k] < n,
        forall|a: int, b: int| 0 <= a < b < n ==> #[trigger] p[a] != #[trigger] p[b],
        0 <= v < n,
    ensures
        exists|k: int| 0 <= k < n && p[k] == v,
{
    assert(p.no_duplicates()) by {
        assert forall|a: int, b: int| 0 <= a < p.len() && 0 <= b < p.len() && a != b implies p[a]
            != p[b] by {
            if a < b {
                assert(p[a] != p[b]);
            } else {
                assert(p[b] != p[a]);
            }
        }
    }
    p.unique_seq_to_set();
    vstd::set_lib::lemma_int_range(0, n);
    let range = vstd::set_lib::set_int_range(0, n);
    assert(p.to_set().subset_of(range)) by {
        assert forall|x: int| p.to_set().contains(x) implies range.contains(x) by {
            let k = choose|k: int| 0 <= k < p.len() && p[k] == x;
            assert(0 <= p[k] < n);
        }
    }
    vstd::seq_lib::seq_to_set_is_finite(p);
    vstd::set_lib::lemma_subset_equality(p.to_set(), range);
    assert(range.contains(v));
    assert(p.to_set().contains(v));
}

/// Taking the last entry of the input out of a stable sort leaves a stable
/// sort of the rest of the input.
proof fn lemma_take_out_last(
    st: SortType,
    input: Seq<FileNode>,
    output: Seq<FileNode>,
    p: Seq<int>,
    q: int,
)
    requires
        sorted_by(st, output),
        stable_arrangement(st, input, output, p),
        0 <= q < p.len(),
        p[q] == input.len() - 1,
    ensures
        stably_sorted(st, input.drop_last(), output.remove(q)),
        forall|k: int| 0 <= k < q ==> !goes_before(st, input.last(), #[trigger] output[k]),
        forall|k: int| q < k < output.len() ==> goes_before(st, input.last(), #[trigger] output[k]),
{
    let n = input.len();
    let x = input.last();
    assert(output[q] == x);
    assert forall|k: int| q < k < output.len() implies goes_before(st, x, #[trigger] output[k]) by {
        assert(!goes_before(st, output[k], output[q]));
        if !goes_before(st, x, output[k]) {
            assert(same_rank(st, output[q], output[k]));
            assert(p[q] < p[k]);
            assert(p[k] < n);
        }
    }
    assert forall|k: int| 0 <= k < q implies !goes_before(st, x, #[trigger] output[k]) by {
        assert(!goes_before(st, output[q], output[k]));
    }
    let p2 = p.remove(q);
    let o2 = output.remove(q);
    let i2 = input.drop_last();
    assert forall|k: int| 0 <= k < p2.len() implies 0 <= #[trigger] p2[k] < i2.len() by {
        if k < q {
            assert(p[k] != p[q]);
        } else {
            assert(p2[k] == p[k + 1]);
            assert(p[q] != p[k + 1]);
        }
    }
    assert forall|k: int| 0 <= k < p2.len() implies #[trigger] o2[k] == i2[p2[k]] by {
        if k < q {
            assert(p[k] != p[q]);
        } else {
            assert(p2[k] == p[k + 1]);
            assert(p[q] != p[k + 1]);
        }
    }
    assert forall|a: int, b: int| 0 <= a < b < p2.len() implies #[trigger] p2[a]
        != #[trigger] p2[b] by {
        if b < q {
        } else if a < q {
            assert(p2[b] == p[b + 1]);
            assert(p[a] != p[b + 1]);
        } else {
            assert(p[a + 1] != p[b + 1]);
        }
    }
    assert forall|a: int, b: int|
        0 <= a < b < p2.len() && same_rank(st, #[trigger] o2[a], #[trigger] o2[b]) implies p2[a]
        < p2[b] by {
        if b < q {
        } else if a < q {
            assert(o2[b] == output[b + 1]);
        } else {
            assert(o2[a] == output[a + 1] && o2[b] == output[b + 1]);
        }
    }
    assert forall|a: int, b: int| 0 <= a < b < o2.len() implies !goes_before(
        st,
        #[trigger] o2[b],
        #[trigger] o2[a],
    ) by {
        if b < q {
        } else if a < q {
            assert(o2[b] == output[b + 1]);
        } else {
            assert(o2[a] == output[a + 1] && o2[b] == output[b + 1]);
        }
    }
    assert(stable_arrangement(st, i2, o2, p2));
}

/// A stable sort has only one possible outcome: two stable sorts of the same
/// entries by the same sort type list them identically.
pub proof fn lemma_stable_sort_unique(
    st: SortType,
    input: Seq<FileNode>,
    first: Seq<FileNode>,
    second: Seq<FileNode>,
)
    requires
        stably_sorted(st, input, first),
        stably_sorted(st, input, second),
    ensures
        first == second,
    decreases input.len(),
{
    let p1 = choose|p: Seq<int>| stable_arrangement(st, input, first, p);
    let p2 = choose|p: Seq<int>| stable_arrangement(st, input, second, p);
    let n = input.len();
    if n == 0 {
        assert(first =~= second);
    } else {
        lemma_arrangement_onto(p1, n as int, n - 1);
        lemma_arrangement_onto(p2, n as int, n - 1);
        let q1 = choose|k: int| 0 <= k < n && p1[k] == n - 1;
        let q2 = choose|k: int| 0 <= k < n && p2[k] == n - 1;
        lemma_take_out_last(st, input, first, p1, q1);
        lemma_take_out_last(st, input, second, p2, q2);
        let r1 = first.remove(q1);
        let r2 = second.remove(q2);
        lemma_stable_sort_unique(st, input.drop_last(), r1, r2);
        let x = input.last();
        if q1 < q2 {
            assert(r1[q1] == first[q1 + 1]);
            assert(goes_before(st, x, first[q1 + 1]));
            assert(r2[q1] == second[q1]);
            assert(!goes_before(st, x, second[q1]));
        }
        if q2 < q1 {
            assert(r2[q2] == second[q2 + 1]);
            assert(goes_before(st, x, second[q2 + 1]));
            assert(r1[q2] == first[q2]);
            assert(!goes_before(st, x, first[q2]));
        }
        assert(q1 == q2);
        assert(first[q1] == x);
        assert(second[q2] == x);
        assert(first =~= r1.insert(q1, x));
        assert(second =~= r2.insert(q2, x));
    }
}

/// Sorting entries that a stable sort has already put in order changes nothing.
pub proof fn lemma_stable_sort_settled(st: SortType, input: Seq<FileNode>, output: Seq<FileNode>)
    requires
        stably_sorted(st, input, output),
    ensures
        stably_sorted(st, output, output),
        forall|again: Seq<FileNode>| stably_sorted(st, output, again) ==> again == output,
{
    let id = Seq::new(output.len(), |k: int| k);
    assert(stable_arrangement(st, output, output, id));
    assert forall|again: Seq<FileNode>| stably_sorted(st, output, again) implies again
        == output by {
        lemma_stable_sort_unique(st, output, again, output);
    }
}

/// Whether `a` comes strictly before `b` byte-wise.
fn bytes_before(a: &[u8], b: &[u8]) -> (res: bool)
    ensures
        res == bytes_less(a@, b@),
{
    let mut k: usize = 0;
    assert(a@.skip(0) == a@);
    assert(b@.skip(0) == b@);
    while k < a.len() && k < b.len() && a[k] == b[k]
        invariant
            k <= a.len(),
            k <= b.len(),
            bytes_less(a@, b@) == bytes_less(a@.skip(k as int), b@.skip(k as int)),
        decreases a.len() - k,
    {
        assert(a@.skip(k as int).drop_first() =~= a@.skip(k + 1));
        assert(b@.skip(k as int).drop_first() =~= b@.skip(k + 1));
        k = k + 1;
    }
    if k == a.len() {
        k < b.len()
    } else if k == b.len() {
        false
    } else {
        a[k] < b[k]
    }
}

/// Whether `a` is listed strictly before `b` under `st`.
fn node_goes_before(st: &SortType, a: &FileNode, b: &FileNode) -> (res: bool)
    ensures
        res == goes_before(*st, *a, *b),
{
    match st {
        SortType::Size(SortDirection::Up) => a.size.size_metric_to_bytes()
            < b.size.size_metric_to_bytes(),
        SortType::Size(SortDirection::Down) => b.size.size_metric_to_bytes()
            < a.size.size_metric_to_bytes(),
        SortType::Alphabetical(SortDirection::Up) => bytes_before(
            a.name.as_str().as_bytes(),
            b.name.as_str().as_bytes(),
        ),
        SortType::Alphabetical(SortDirection::Down) => bytes_before(
            b.name.as_str().as_bytes(),
            a.name.as_str().as_bytes(),
        ),
        SortType::Modification(SortDirection::Up) => a.modified < b.modified,
        SortType::Modification(SortDirection::Down) => b.modified < a.modified,
        SortType::Natural(_) => false,
    }
}

/// Sorts `nodes` stably by `st`. Entries that are already in order stay
/// where they are.
pub fn sort_nodes(nodes: &mut Vec<FileNode>, st: &SortType)
    ensures
        stably_sorted(*st, old(nodes)@, final(nodes)@),
        sorted_by(*st, old(nodes)@) ==> final(nodes)@ == old(nodes)@,
{
    let ghost input = nodes@;
    let n = nodes.len();
    let ghost mut perm: Seq<int> = Seq::empty();
    let mut i: usize = 0;
    while i < n
        invariant
            n == input.len(),
            nodes@.len() == n,
            i <= n,
            forall|k: int| i <= k < n ==> #[trigger] nodes@[k] == input[k],
            sorted_by(*st, nodes@.take(i as int)),
            stable_arrangement(*st, input.take(i as int), nodes@.take(i as int), perm),
            sorted_by(*st, input) ==> nodes@ == input,
        decreases n - i,
    {
        let ghost before = nodes@;
        let x = nodes.remove(i);
        assert(x == input[i as int]);
        let mut lo: usize = 0;
        let mut hi: usize = i;
        while lo < hi
            invariant
                nodes@ == before.remove(i as int),
                before.len() == n,
                x == before[i as int],
                lo <= hi <= i < n,
                nodes@.len() == n - 1,
                sorted_by(*st, before.take(i as int)),
                forall|k: int| 0 <= k < lo ==> !goes_before(*st, x, #[trigger] nodes@[k]),
                forall|k: int| hi <= k < i ==> goes_before(*st, x, #[trigger] nodes@[k]),
            decreases hi - lo,
        {
            let mid = lo + (hi - lo) / 2;
            assert(nodes@[mid as int] == before.take(i as int)[mid as int]);
            if node_goes_before(st, &x, &nodes[mid]) {
                assert forall|k: int| mid <= k < hi implies goes_before(
                    *st,
                    x,
                    #[trigger] nodes@[k],
                ) by {
                    assert(nodes@[k] == before.take(i as int)[k]);
                    if k > mid {
                        assert(!goes_before(*st, nodes@[k], nodes@[mid as int]));
                    }
                    lemma_goes_before_split(*st, x, nodes@[mid as int], nodes@[k]);
                }
                hi = mid;
            } else {
                assert forall|k: int| lo <= k <= mid implies !goes_before(
                    *st,
                    x,
                    #[trigger] nodes@[k],
                ) by {
                    assert(nodes@[k] == before.take(i as int)[k]);
                    if k < mid {
                        assert(!goes_before(*st, nodes@[mid as int], nodes@[k]));
                        if goes_before(*st, x, nodes@[k]) {
                            lemma_goes_before_split(*st, x, nodes@[k], nodes@[mid as int]);
                        }
                    }
                }
                lo = mid + 1;
            }
        }
        let ghost removed = nodes@;
        nodes.insert(lo, x);
        proof {
            perm = lemma_insertion_step(*st, input, before, i as int, lo as int, perm);
        }
        i = i + 1;
    }
    assert(nodes@.take(n as int) == nodes@);
    assert(input.take(n as int) == input);
    assert(stable_arrangement(*st, input, nodes@, perm));
}

} // verus!
