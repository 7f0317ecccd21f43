use vstd::prelude::*;

verus! {

broadcast use vstd::seq_lib::group_to_multiset_ensures;

/// Lexicographic order on texts, by character code, shorter prefixes
/// first: the order `<=` of `String` values.
pub open spec fn lex_le(a: Seq<char>, b: Seq<char>) -> bool
    decreases a.len(),
{
    if a.len() == 0 {
        true
    } else if b.len() == 0 {
        false
    } else if a[0] == b[0] {
        lex_le(a.drop_first(), b.drop_first())
    } else {
        (a[0] as int) < (b[0] as int)
    }
}

pub proof fn lemma_lex_refl(a: Seq<char>)
    ensures
        lex_le(a, a),
    decreases a.len(),
{
    if a.len() > 0 {
        lemma_lex_refl(a.drop_first());
    }
}

pub proof fn lemma_lex_total(a: Seq<char>, b: Seq<char>)
    ensures
        lex_le(a, b) || lex_le(b, a),
    decreases a.len(),
{
    if a.len() > 0 && b.len() > 0 && a[0] == b[0] {
        lemma_lex_total(a.drop_first(), b.drop_first());
    }
}

pub proof fn lemma_lex_trans(a: Seq<char>, b: Seq<char>, c: Seq<char>)
    requires
        lex_le(a, b),
        lex_le(b, c),
    ensures
        lex_le(a, c),
    decreases a.len(),
{
    if a.len() > 0 {
        assert(b.len() > 0);
        assert(c.len() > 0);
        if a[0] == b[0] && b[0] == c[0] {
            lemma_lex_trans(a.drop_first(), b.drop_first(), c.drop_first());
        }
    }
}

/// Every element stands at or before every later one.
pub open spec fn sorted(s: Seq<Seq<char>>) -> bool {
    forall|p: int, q: int| 0 <= p <= q < s.len() ==> lex_le(#[trigger] s[p], #[trigger] s[q])
}

proof fn lemma_lex_skip(a: Seq<char>, b: Seq<char>, i: int)
    requires
        0 <= i <= a.len(),
        i <= b.len(),
        forall|m: int| 0 <= m < i ==> a[m] == b[m],
    ensures
        lex_le(a, b) == lex_le(a.skip(i), b.skip(i)),
    decreases i,
{
    if i > 0 {
        assert(a[0] == b[0]);
        assert(a.drop_first().skip(i - 1) =~= a.skip(i));
        assert(b.drop_first().skip(i - 1) =~= b.skip(i));
        assert(forall|m: int| 0 <= m < i - 1 ==> a.drop_first()[m] == b.drop_first()[m]);
        lemma_lex_skip(a.drop_first(), b.drop_first(), i - 1);
    } else {
        assert(a.skip(0) =~= a);
        assert(b.skip(0) =~= b);
    }
}

/// Compares two strings in the lexicographic order, character by
/// character.
pub fn str_le(a: &String, b: &String) -> (r: bool)
    ensures
        r == lex_le(a@, b@),
{
    let alen = a.as_str().unicode_len();
    let blen = b.as_str().unicode_len();
    let mut i: usize = 0;
    while i < alen && i < blen
        invariant
            i <= alen,
            i <= blen,
            alen == a@.len(),
            blen == b@.len(),
            forall|m: int| 0 <= m < i ==> a@[m] == b@[m],
        decreases alen - i,
    {
        let ca = a.as_str().get_char(i);
        let cb = b.as_str().get_char(i);
        if ca != cb {
            proof {
                lemma_lex_skip(a@, b@, i as int);
            }
            return (ca as u32) < (cb as u32);
        }
        i += 1;
    }
    proof {
        lemma_lex_skip(a@, b@, i as int);
    }
    i == alen
}

/// Writes the ordered union of two sorted runs into `arr`, front to back,
/// smaller head first. `arr` must already have room for every element.
pub fn merge(left: &mut Vec<String>, right: &mut Vec<String>, arr: &mut Vec<String>)
    requires
        old(arr)@.len() == old(left)@.len() + old(right)@.len(),
        sorted(old(left).deep_view()),
        sorted(old(right).deep_view()),
    ensures
        *final(left) == *old(left),
        *final(right) == *old(right),
        final(arr)@.len() == old(arr)@.len(),
        sorted(final(arr).deep_view()),
        final(arr).deep_view().to_multiset() == (old(left).deep_view()
            + old(right).deep_view()).to_multiset(),
{
    let ghost dvl = left.deep_view();
    let ghost dvr = right.deep_view();
    let mut i: usize = 0;
    let mut j: usize = 0;
    let mut k: usize = 0;
    proof {
        assert(arr.deep_view().subrange(0, 0) =~= Seq::<Seq<char>>::empty());
        assert(dvl.subrange(0, 0) =~= Seq::<Seq<char>>::empty());
        assert(dvr.subrange(0, 0) =~= Seq::<Seq<char>>::empty());
        assert((dvl.subrange(0, 0) + dvr.subrange(0, 0)) =~= Seq::<Seq<char>>::empty());
        assert(Seq::<Seq<char>>::empty().to_multiset() =~= arr.deep_view().subrange(
            0,
            0,
        ).to_multiset());
    }
    while i < left.len() && j < right.len()
        invariant
            *left == *old(left),
            *right == *old(right),
            dvl == left.deep_view(),
            dvr == right.deep_view(),
            sorted(dvl),
            sorted(dvr),
            i <= dvl.len(),
            j <= dvr.len(),
            k == i + j,
            left@.len() == dvl.len(),
            right@.len() == dvr.len(),
            arr@.len() == dvl.len() + dvr.len(),
            arr.deep_view().len() == arr@.len(),
            sorted(arr.deep_view().subrange(0, k as int)),
            arr.deep_view().subrange(0, k as int).to_multiset() == (dvl.subrange(0, i as int)
                + dvr.subrange(0, j as int)).to_multiset(),
            k > 0 && i < dvl.len() ==> lex_le(arr.deep_view()[k - 1], dvl[i as int]),
            k > 0 && j < dvr.len() ==> lex_le(arr.deep_view()[k - 1], dvr[j as int]),
        decreases left@.len() + right@.len() - k,
    {
        let total = arr.len();
        let ghost pre = arr.deep_view();
        let take_left = str_le(&left[i], &right[j]);
        proof {
            assert(k < total);
            lemma_lex_total(dvl[i as int], dvr[j as int]);
            vstd::seq_lib::lemma_seq_union_to_multiset_commutative(
                dvl.subrange(0, i as int),
                dvr.subrange(0, j as int),
            );
        }
        if take_left {
            arr[k] = left[i].clone();
            proof {
                assert(arr.deep_view() =~= pre.update(k as int, dvl[i as int]));
                merge_step(pre, arr.deep_view(), dvl.subrange(0, i as int), dvr.subrange(
                    0,
                    j as int,
                ), k as int, dvl[i as int]);
                assert(dvl.subrange(0, i as int).push(dvl[i as int]) =~= dvl.subrange(
                    0,
                    i as int + 1,
                ));
                assert((dvl.subrange(0, i as int).push(dvl[i as int]) + dvr.subrange(
                    0,
                    j as int,
                )).to_multiset() =~= (dvl.subrange(0, i as int + 1) + dvr.subrange(
                    0,
                    j as int,
                )).to_multiset());
            }
            i += 1;
        } else {
            arr[k] = right[j].clone();
            proof {
                assert(arr.deep_view() =~= pre.update(k as int, dvr[j as int]));
                merge_step(pre, arr.deep_view(), dvr.subrange(0, j as int), dvl.subrange(
                    0,
                    i as int,
                ), k as int, dvr[j as int]);
                assert(dvr.subrange(0, j as int).push(dvr[j as int]) =~= dvr.subrange(
                    0,
                    j as int + 1,
                ));
                vstd::seq_lib::lemma_multiset_commutative(
                    dvl.subrange(0, i as int),
                    dvr.subrange(0, j as int + 1),
                );
                vstd::seq_lib::lemma_multiset_commutative(
                    dvr.subrange(0, j as int + 1),
                    dvl.subrange(0, i as int),
                );
                vstd::seq_lib::lemma_multiset_commutative(
                    dvr.subrange(0, j as int).push(dvr[j as int]),
                    dvl.subrange(0, i as int),
                );
            }
            j += 1;
        }
        k += 1;
    }
    while i < left.len()
        invariant
            *left == *old(left),
            *right == *old(right),
            dvl == left.deep_view(),
            dvr == right.deep_view(),
            sorted(dvl),
            i <= dvl.len(),
            j <= dvr.len(),
            k == i + j,
            i < dvl.len() ==> j == dvr.len(),
            left@.len() == dvl.len(),
            arr@.len() == dvl.len() + dvr.len(),
            arr.deep_view().len() == arr@.len(),
            sorted(arr.deep_view().subrange(0, k as int)),
            arr.deep_view().subrange(0, k as int).to_multiset() == (dvl.subrange(0, i as int)
                + dvr.subrange(0, j as int)).to_multiset(),
            k > 0 && i < dvl.len() ==> lex_le(arr.deep_view()[k - 1], dvl[i as int]),
            k > 0 && j < dvr.len() ==> lex_le(arr.deep_view()[k - 1], dvr[j as int]),
        decreases left@.len() - i,
    {
        let total = arr.len();
        let ghost pre = arr.deep_view();
        arr[k] = left[i].clone();
        proof {
            assert(k < total);
            assert(arr.deep_view() =~= pre.update(k as int, dvl[i as int]));
            merge_step(pre, arr.deep_view(), dvl.subrange(0, i as int), dvr.subrange(
                0,
                j as int,
            ), k as int, dvl[i as int]);
            assert(dvl.subrange(0, i as int).push(dvl[i as int]) =~= dvl.subrange(
                0,
                i as int + 1,
            ));
            assert((dvl.subrange(0, i as int).push(dvl[i as int]) + dvr.subrange(
                0,
                j as int,
            )).to_multiset() =~= (dvl.subrange(0, i as int + 1) + dvr.subrange(
                0,
                j as int,
            )).to_multiset());
        }
        i += 1;
        k += 1;
    }
    while j < right.len()
        invariant
            *left == *old(left),
            *right == *old(right),
            dvl == left.deep_view(),
            dvr == right.deep_view(),
            sorted(dvr),
            i == dvl.len(),
            j <= dvr.len(),
            k == i + j,
            right@.len() == dvr.len(),
            arr@.len() == dvl.len() + dvr.len(),
            arr.deep_view().len() == arr@.len(),
            sorted(arr.deep_view().subrange(0, k as int)),
            arr.deep_view().subrange(0, k as int).to_multiset() == (dvl.subrange(0, i as int)
                + dvr.subrange(0, j as int)).to_multiset(),
            k > 0 && j < dvr.len() ==> lex_le(arr.deep_view()[k - 1], dvr[j as int]),
        decreases right@.len() - j,
    {
        let total = arr.len();
        let ghost pre = arr.deep_view();
        arr[k] = right[j].clone();
        proof {
            assert(k < total);
            assert(arr.deep_view() =~= pre.update(k as int, dvr[j as int]));
            vstd::seq_lib::lemma_seq_union_to_multiset_commutative(
                dvl.subrange(0, i as int),
                dvr.subrange(0, j as int),
            );
            merge_step(pre, arr.deep_view(), dvr.subrange(0, j as int), dvl.subrange(
                0,
                i as int,
            ), k as int, dvr[j as int]);
            assert(dvr.subrange(0, j as int).push(dvr[j as int]) =~= dvr.subrange(
                0,
                j as int + 1,
            ));
            vstd::seq_lib::lemma_multiset_commutative(
                dvl.subrange(0, i as int),
                dvr.subrange(0, j as int + 1),
            );
            vstd::seq_lib::lemma_multiset_commutative(
                dvr.subrange(0, j as int + 1),
                dvl.subrange(0, i as int),
            );
            vstd::seq_lib::lemma_multiset_commutative(
                dvr.subrange(0, j as int).push(dvr[j as int]),
                dvl.subrange(0, i as int),
            );
        }
        j += 1;
        k += 1;
    }
    proof {
        assert(arr.deep_view().subrange(0, k as int) =~= arr.deep_view());
        assert(dvl.subrange(0, i as int) =~= dvl);
        assert(dvr.subrange(0, j as int) =~= dvr);
    }
}

/// One placement step of the merge: writing the pending element `x` at
/// position `k` keeps the filled prefix sorted and adds `x` to what it
/// holds. `mine` is the run `x` comes from, `other` the run it was
/// compared against.
proof fn merge_step(
    pre: Seq<Seq<char>>,
    post: Seq<Seq<char>>,
    mine: Seq<Seq<char>>,
    other: Seq<Seq<char>>,
    k: int,
    x: Seq<char>,
)
    requires
        0 <= k < pre.len(),
        post == pre.update(k, x),
        sorted(pre.subrange(0, k)),
        pre.subrange(0, k).to_multiset() == (mine + other).to_multiset(),
        k > 0 ==> lex_le(pre[k - 1], x),
    ensures
        post.len() == pre.len(),
        sorted(post.subrange(0, k + 1)),
        post.subrange(0, k + 1).to_multiset() == (mine.push(x) + other).to_multiset(),
        post[k] == x,
        forall|m: int| 0 <= m < k ==> post[m] == pre[m],
{
    assert(post.subrange(0, k) =~= pre.subrange(0, k));
    assert(post.subrange(0, k + 1) =~= pre.subrange(0, k).push(x));
    let prefix = pre.subrange(0, k);
    assert forall|p: int, q: int|
        0 <= p <= q < k + 1 implies lex_le(
        #[trigger] post.subrange(0, k + 1)[p],
        #[trigger] post.subrange(0, k + 1)[q],
    ) by {
        if q < k {
            assert(lex_le(prefix[p], prefix[q]));
        } else if p < k {
            assert(lex_le(prefix[p], prefix[k - 1]));
            lemma_lex_trans(prefix[p], prefix[k - 1], x);
        } else {
            lemma_lex_refl(x);
        }
    }
    vstd::seq_lib::lemma_multiset_commutative(mine, other);
    vstd::seq_lib::lemma_multiset_commutative(mine.push(x), other);
    assert(post.subrange(0, k + 1).to_multiset() =~= (mine.push(x) + other).to_multiset());
}

/// Sorts the vector in place by recursive halving and merging.
pub fn merge_sort(arr: &mut Vec<String>)
    ensures
        final(arr)@.len() == old(arr)@.len(),
        sorted(final(arr).deep_view()),
        final(arr).deep_view().to_multiset() == old(arr).deep_view().to_multiset(),
    decreases old(arr)@.len(),
{
    let len = arr.len();
    if len <= 1 {
        proof {
            if arr.deep_view().len() > 0 {
                lemma_lex_refl(arr.deep_view()[0]);
            }
        }
        return;
    }
    let mid = len / 2;
    let mut left: Vec<String> = Vec::new();
    let mut i: usize = 0;
    while i < mid
        invariant
            i <= mid,
            mid < len,
            len == arr@.len(),
            *arr == *old(arr),
            left@.len() == i,
            forall|m: int| 0 <= m < i ==> left@[m] == arr@[m],
        decreases mid - i,
    {
        left.push(arr[i].clone());
        i += 1;
    }
    let mut right: Vec<String> = Vec::new();
    let mut j: usize = mid;
    while j < len
        invariant
            mid <= j <= len,
            len == arr@.len(),
            *arr == *old(arr),
            right@.len() == j - mid,
            forall|m: int| 0 <= m < j - mid ==> right@[m] == arr@[m + mid],
        decreases len - j,
    {
        right.push(arr[j].clone());
        j += 1;
    }
    let ghost dv0 = arr.deep_view();
    proof {
        assert(left.deep_view() =~= dv0.subrange(0, mid as int));
        assert(right.deep_view() =~= dv0.subrange(mid as int, len as int));
    }
    let ghost dvl0 = left.deep_view();
    let ghost dvr0 = right.deep_view();
    merge_sort(&mut left);
    merge_sort(&mut right);
    merge(&mut left, &mut right, arr);
    proof {
        vstd::seq_lib::lemma_multiset_commutative(left.deep_view(), right.deep_view());
        vstd::seq_lib::lemma_multiset_commutative(dvl0, dvr0);
        assert(dvl0 + dvr0 =~= dv0);
    }
}

/// Returns the list sorted by merge sort.
pub fn sort(list: Vec<String>) -> (r: Vec<String>)
    ensures
        r@.len() == list@.len(),
        sorted(r.deep_view()),
        r.deep_view().to_multiset() == list.deep_view().to_multiset(),
{
    let mut l = list;
    merge_sort(&mut l);
    l
}

} // verus!
