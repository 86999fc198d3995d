//! Sorting of integers.
use vstd::multiset::Multiset;
use vstd::prelude::*;
use vstd::seq_lib::lemma_multiset_commutative;

verus! {

/// Whether numbers do not fall.
pub open spec fn ascending(s: Seq<u128>) -> bool {
    forall|i: int, j: int| 0 <= i < j < s.len() ==> #[trigger] s[i] <= #[trigger] s[j]
}

/// What a sequence holds after one more item.
pub proof fn lemma_pushed<A>(s: Seq<A>, last: A, x: A)
    ensures
        s.push(last).contains(x) == (s.contains(x) || x == last),
{
    let t = s.push(last);
    if s.contains(x) {
        let i = choose|i: int| 0 <= i < s.len() && s[i] == x;
        assert(t[i] == x);
    }
    assert(t[s.len() as int] == last);
    if t.contains(x) && x != last {
        let i = choose|i: int| 0 <= i < t.len() && t[i] == x;
        assert(s[i] == x);
    }
}

/// Whether the last number so far may be followed by what is left of a sequence.
spec fn may_follow(out: Seq<u128>, rest: Seq<u128>, from: int) -> bool {
    forall|i: int, j: int|
        0 <= i < out.len() && from <= j < rest.len() ==> #[trigger] out[i] <= #[trigger] rest[j]
}

/// Appends one number to a merge in progress.
proof fn lemma_append(
    out: Seq<u128>,
    a: Seq<u128>,
    i: int,
    b: Seq<u128>,
    j: int,
)
    requires
        0 <= i < a.len(),
        0 <= j <= b.len(),
        ascending(a),
        ascending(b),
        ascending(out),
        may_follow(out, a, i),
        may_follow(out, b, j),
        j < b.len() ==> a[i] <= b[j],
        out.to_multiset() == a.take(i).to_multiset().add(b.take(j).to_multiset()),
    ensures
        ascending(out.push(a[i])),
        may_follow(out.push(a[i]), a, i + 1),
        may_follow(out.push(a[i]), b, j),
        out.push(a[i]).to_multiset() == a.take(i + 1).to_multiset().add(b.take(j).to_multiset()),
{
    let now = out.push(a[i]);
    assert forall|m: int, n: int| 0 <= m < n < now.len() implies #[trigger] now[m]
        <= #[trigger] now[n] by {
        if n == out.len() {
            assert(out[m] <= a[i]);
        }
    }
    assert forall|m: int, n: int| 0 <= m < now.len() && i + 1 <= n < a.len() implies #[trigger] now[m]
        <= #[trigger] a[n] by {
        if m < out.len() {
            assert(out[m] <= a[n]);
        } else {
            assert(a[i] <= a[n]);
        }
    }
    assert forall|m: int, n: int| 0 <= m < now.len() && j <= n < b.len() implies #[trigger] now[m]
        <= #[trigger] b[n] by {
        if m < out.len() {
            assert(out[m] <= b[n]);
        } else if j < n {
            assert(b[j] <= b[n]);
        }
    }
    assert(a.take(i + 1) =~= a.take(i).push(a[i]));
    a.take(i).to_multiset_ensures();
    out.to_multiset_ensures();
    assert(a.take(i).to_multiset().insert(a[i]).add(b.take(j).to_multiset())
        =~= a.take(i).to_multiset().add(b.take(j).to_multiset()).insert(a[i]));
}

proof fn lemma_swap(out: Multiset<u128>, a: Multiset<u128>, b: Multiset<u128>)
    requires
        out == a.add(b),
    ensures
        out == b.add(a),
{
    assert(a.add(b) =~= b.add(a));
}

fn merge(a: &[u128], b: &[u128]) -> (r: Vec<u128>)
    requires
        ascending(a@),
        ascending(b@),
    ensures
        ascending(r@),
        r@.to_multiset() == a@.to_multiset().add(b@.to_multiset()),
{
    let mut out: Vec<u128> = Vec::new();
    let mut i: usize = 0;
    let mut j: usize = 0;
    proof {
        out@.to_multiset_ensures();
        assert(a@.take(0) =~= Seq::<u128>::empty());
        assert(b@.take(0) =~= Seq::<u128>::empty());
        assert(out@ =~= Seq::<u128>::empty());
        lemma_multiset_commutative(a@.take(0), b@.take(0));
        assert(a@.take(0) + b@.take(0) =~= out@);
    }
    while i < a.len() || j < b.len()
        invariant
            i <= a@.len(),
            j <= b@.len(),
            ascending(a@),
            ascending(b@),
            ascending(out@),
            may_follow(out@, a@, i as int),
            may_follow(out@, b@, j as int),
            out@.to_multiset() == a@.take(i as int).to_multiset().add(
                b@.take(j as int).to_multiset(),
            ),
        decreases a@.len() - i + b@.len() - j,
    {
        if i < a.len() && (j >= b.len() || a[i] <= b[j]) {
            proof {
                lemma_append(out@, a@, i as int, b@, j as int);
            }
            out.push(a[i]);
            i += 1;
        } else {
            proof {
                let x = a@.take(i as int).to_multiset();
                let y = b@.take(j as int).to_multiset();
                lemma_swap(out@.to_multiset(), x, y);
                lemma_append(out@, b@, j as int, a@, i as int);
                lemma_swap(
                    out@.push(b@[j as int]).to_multiset(),
                    b@.take(j + 1).to_multiset(),
                    x,
                );
            }
            out.push(b[j]);
            j += 1;
        }
    }
    assert(a@.take(i as int) =~= a@);
    assert(b@.take(j as int) =~= b@);
    out
}

/// The same numbers, in ascending order.
pub fn sorted(items: &[u128]) -> (r: Vec<u128>)
    ensures
        ascending(r@),
        r@.to_multiset() == items@.to_multiset(),
    decreases items@.len(),
{
    let n: usize = items.len();
    if n <= 1 {
        let mut out: Vec<u128> = Vec::new();
        if n == 1 {
            out.push(items[0]);
        }
        assert(out@ =~= items@);
        return out;
    }
    let half: usize = n / 2;
    let left: &[u128] = vstd::slice::slice_subrange(items, 0, half);
    let right: &[u128] = vstd::slice::slice_subrange(items, half, n);
    proof {
        lemma_multiset_commutative(left@, right@);
        assert(left@ + right@ =~= items@);
    }
    let a: Vec<u128> = sorted(left);
    let b: Vec<u128> = sorted(right);
    merge(a.as_slice(), b.as_slice())
}

/// Sorting gives the same numbers, each as often as it was there, from the least to the greatest.
pub proof fn sorting_gives_the_same_numbers_in_order(items: &[u128], r: Vec<u128>, x: u128)
    requires
        call_ensures(sorted, (items,), r),
    ensures
        r@.len() == items@.len(),
        r@.to_multiset().count(x) == items@.to_multiset().count(x),
        forall|i: int, j: int| 0 <= i < j < r@.len() ==> #[trigger] r@[i] <= #[trigger] r@[j],
{
    items@.to_multiset_ensures();
    r@.to_multiset_ensures();
}

} // verus!
