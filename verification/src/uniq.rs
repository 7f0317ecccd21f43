use vstd::prelude::*;

verus! {

/// The words of `s` with every repeat dropped, each word standing where
/// it first occurred.
pub open spec fn dedup_of(s: Seq<Seq<char>>) -> Seq<Seq<char>>
    decreases s.len(),
{
    if s.len() == 0 {
        Seq::empty()
    } else if s.drop_last().contains(s.last()) {
        dedup_of(s.drop_last())
    } else {
        dedup_of(s.drop_last()).push(s.last())
    }
}

proof fn lemma_contains_drop_last(s: Seq<Seq<char>>, x: Seq<char>)
    requires
        s.len() > 0,
    ensures
        s.contains(x) <==> (s.drop_last().contains(x) || x == s.last()),
{
    if s.drop_last().contains(x) {
        let m = choose|m: int| 0 <= m < s.drop_last().len() && s.drop_last()[m] == x;
        assert(s[m] == x);
    }
    if x == s.last() {
        assert(s[s.len() - 1] == x);
    }
    if s.contains(x) {
        let k = choose|k: int| 0 <= k < s.len() && s[k] == x;
        if k < s.len() - 1 {
            assert(s.drop_last()[k] == x);
        }
    }
}

proof fn lemma_contains_push(d: Seq<Seq<char>>, w: Seq<char>, x: Seq<char>)
    ensures
        d.push(w).contains(x) <==> (d.contains(x) || x == w),
{
    if d.contains(x) {
        let m = choose|m: int| 0 <= m < d.len() && d[m] == x;
        assert(d.push(w)[m] == x);
    }
    if x == w {
        assert(d.push(w)[d.len() as int] == x);
    }
    if d.push(w).contains(x) {
        let k = choose|k: int| 0 <= k < d.push(w).len() && d.push(w)[k] == x;
        if k < d.len() {
            assert(d[k] == x);
        }
    }
}

pub proof fn lemma_dedup_contains(s: Seq<Seq<char>>, x: Seq<char>)
    ensures
        dedup_of(s).contains(x) <==> s.contains(x),
    decreases s.len(),
{
    if s.len() > 0 {
        lemma_dedup_contains(s.drop_last(), x);
        lemma_contains_drop_last(s, x);
        if s.drop_last().contains(s.last()) {
            assert(dedup_of(s) == dedup_of(s.drop_last()));
        } else {
            assert(dedup_of(s) == dedup_of(s.drop_last()).push(s.last()));
            lemma_contains_push(dedup_of(s.drop_last()), s.last(), x);
        }
    }
}

pub proof fn lemma_dedup_unique(s: Seq<Seq<char>>)
    ensures
        forall|p: int, q: int|
            0 <= p < q < dedup_of(s).len() ==> dedup_of(s)[p] != dedup_of(s)[q],
    decreases s.len(),
{
    if s.len() > 0 {
        lemma_dedup_unique(s.drop_last());
        if !s.drop_last().contains(s.last()) {
            lemma_dedup_contains(s.drop_last(), s.last());
            let d = dedup_of(s.drop_last());
            assert forall|p: int, q: int|
                0 <= p < q < dedup_of(s).len() implies dedup_of(s)[p] != dedup_of(s)[q] by {
                if q < d.len() {
                    assert(d[p] != d[q]);
                } else {
                    assert(dedup_of(s)[q] == s.last());
                    assert(d.contains(d[p]));
                }
            }
        }
    }
}

/// Drops every repeated word, keeping the first occurrence of each.
pub fn unique_words(list: Vec<String>) -> (r: Vec<String>)
    ensures
        r.deep_view() == dedup_of(list.deep_view()),
        forall|p: int, q: int|
            0 <= p < q < r.deep_view().len() ==> r.deep_view()[p] != r.deep_view()[q],
        forall|x: Seq<char>|
            #[trigger] r.deep_view().contains(x) <==> list.deep_view().contains(x),
{
    let ghost dvl = list.deep_view();
    let mut out: Vec<String> = Vec::new();
    let n = list.len();
    let mut i: usize = 0;
    proof {
        assert(dvl.subrange(0, 0) =~= Seq::<Seq<char>>::empty());
        assert(out.deep_view() =~= Seq::<Seq<char>>::empty());
    }
    while i < n
        invariant
            i <= n,
            n == list@.len(),
            dvl == list.deep_view(),
            out.deep_view() == dedup_of(dvl.subrange(0, i as int)),
        decreases n - i,
    {
        let ghost prefix = dvl.subrange(0, i as int);
        let ghost odv = out.deep_view();
        let mut found = false;
        let mut j: usize = 0;
        let k = out.len();
        while j < k && !found
            invariant
                j <= k,
                k == out@.len(),
                odv == out.deep_view(),
                odv.len() == out@.len(),
                dvl == list.deep_view(),
                i < list@.len(),
                found ==> odv.contains(dvl[i as int]),
                !found ==> forall|m: int| 0 <= m < j ==> odv[m] != dvl[i as int],
            decreases k - j,
        {
            if out[j] == list[i] {
                proof {
                    assert(odv[j as int] == dvl[i as int]);
                }
                found = true;
            }
            j += 1;
        }
        proof {
            assert(dvl.subrange(0, i as int + 1).drop_last() =~= prefix);
            assert(dvl.subrange(0, i as int + 1).last() == dvl[i as int]);
            lemma_dedup_contains(prefix, dvl[i as int]);
        }
        if !found {
            out.push(list[i].clone());
            proof {
                assert(out.deep_view() =~= odv.push(dvl[i as int]));
                assert(!prefix.contains(dvl[i as int]));
            }
        } else {
            proof {
                assert(prefix.contains(dvl[i as int]));
            }
        }
        i += 1;
    }
    proof {
        assert(dvl.subrange(0, n as int) =~= dvl);
        lemma_dedup_unique(dvl);
        assert forall|x: Seq<char>| #[trigger]
            out.deep_view().contains(x) <==> list.deep_view().contains(x) by {
            lemma_dedup_contains(dvl, x);
        }
    }
    out
}

} // verus!
