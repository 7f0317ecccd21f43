use vstd::multiset::Multiset;
use vstd::prelude::*;

verus! {

broadcast use vstd::seq_lib::group_to_multiset_ensures;

/// What a string must look like for the bucket pass to read it: at least
/// one character, every character below code 126, the bucket count.
pub open spec fn bucket_str_ok(s: Seq<char>) -> bool {
    s.len() > 0 && forall|c: int| 0 <= c < s.len() ==> (#[trigger] s[c] as int) < 126
}

pub open spec fn all_bucket_ok(s: Seq<Seq<char>>) -> bool {
    forall|m: int| 0 <= m < s.len() ==> bucket_str_ok(#[trigger] s[m])
}

/// The longest string's length.
pub open spec fn max_len_of(ws: Seq<Seq<char>>) -> nat
    decreases ws.len(),
{
    if ws.len() == 0 {
        0
    } else {
        let m = max_len_of(ws.drop_last());
        if ws.last().len() > m {
            ws.last().len()
        } else {
            m
        }
    }
}

/// The scan position a pass holds when it reaches element `k`: the pass
/// starts at its own index and resets to zero, for good, whenever the
/// position runs past the end of an element.
pub open spec fn pos_before(ws: Seq<Seq<char>>, k: int, i0: int) -> int
    decreases k,
{
    if k <= 0 {
        i0
    } else {
        let p = pos_before(ws, k - 1, i0);
        if p >= ws[k - 1].len() {
            0
        } else {
            p
        }
    }
}

/// The position the pass reads element `k` at, after any reset.
pub open spec fn eff_pos(ws: Seq<Seq<char>>, k: int, i0: int) -> int {
    let p = pos_before(ws, k, i0);
    if p >= ws[k].len() {
        0
    } else {
        p
    }
}

/// The bucket the pass drops element `k` into: the code of the character
/// it reads there.
pub open spec fn bucket_of(ws: Seq<Seq<char>>, k: int, i0: int) -> int {
    ws[k][eff_pos(ws, k, i0)] as int
}

/// The elements among the first `k` that the pass drops into bucket `c`,
/// in input order.
pub open spec fn bucket_upto(ws: Seq<Seq<char>>, k: int, c: int, i0: int) -> Seq<Seq<char>>
    decreases k,
{
    if k <= 0 {
        Seq::empty()
    } else {
        bucket_upto(ws, k - 1, c, i0) + (if bucket_of(ws, k - 1, i0) == c {
            seq![ws[k - 1]]
        } else {
            Seq::empty()
        })
    }
}

/// The buckets from code `c` on, gathered back in code order.
pub open spec fn gather_from(ws: Seq<Seq<char>>, c: int, i0: int) -> Seq<Seq<char>>
    decreases 126 - c,
{
    if c < 0 || c >= 126 {
        Seq::empty()
    } else {
        bucket_upto(ws, ws.len() as int, c, i0) + gather_from(ws, c + 1, i0)
    }
}

/// One whole pass: distribute into the buckets, gather in code order.
pub open spec fn one_pass(ws: Seq<Seq<char>>, i0: int) -> Seq<Seq<char>> {
    gather_from(ws, 0, i0)
}

/// The list after the first `n` passes, pass `p` scanning at position `p`.
pub open spec fn passes(ws: Seq<Seq<char>>, n: nat) -> Seq<Seq<char>>
    decreases n,
{
    if n == 0 {
        ws
    } else {
        one_pass(passes(ws, (n - 1) as nat), n - 1)
    }
}

/// What a family of buckets holds, all together.
spec fn buckets_ms(b: Seq<Seq<Seq<char>>>) -> Multiset<Seq<char>>
    decreases b.len(),
{
    if b.len() == 0 {
        Multiset::empty()
    } else {
        b.first().to_multiset().add(buckets_ms(b.drop_first()))
    }
}

proof fn lemma_buckets_ms_push(b: Seq<Seq<Seq<char>>>, bi: int, x: Seq<char>)
    requires
        0 <= bi < b.len(),
    ensures
        buckets_ms(b.update(bi, b[bi].push(x))) =~= buckets_ms(b).insert(x),
    decreases b.len(),
{
    broadcast use vstd::multiset::group_multiset_axioms;

    let b2 = b.update(bi, b[bi].push(x));
    if bi == 0 {
        assert(b2.first() == b.first().push(x));
        assert(b2.drop_first() =~= b.drop_first());
        assert(b.first().push(x).to_multiset() =~= b.first().to_multiset().insert(x));
    } else {
        assert(b2.first() == b.first());
        assert(b2.drop_first() =~= b.drop_first().update(bi - 1, b.drop_first()[bi - 1].push(x)));
        lemma_buckets_ms_push(b.drop_first(), bi - 1, x);
    }
}

proof fn lemma_buckets_ms_skip(b: Seq<Seq<Seq<char>>>, x: int)
    requires
        0 <= x < b.len(),
    ensures
        buckets_ms(b.skip(x)) =~= b[x].to_multiset().add(buckets_ms(b.skip(x + 1))),
{
    broadcast use vstd::multiset::group_multiset_axioms;

    assert(b.skip(x).first() == b[x]);
    assert(b.skip(x).drop_first() =~= b.skip(x + 1));
}

proof fn lemma_buckets_ms_empty(b: Seq<Seq<Seq<char>>>)
    requires
        forall|y: int| 0 <= y < b.len() ==> (#[trigger] b[y]).len() == 0,
    ensures
        buckets_ms(b) =~= Multiset::<Seq<char>>::empty(),
    decreases b.len(),
{
    broadcast use vstd::multiset::group_multiset_axioms;

    if b.len() > 0 {
        assert(b.first().to_multiset() =~= Multiset::<Seq<char>>::empty());
        lemma_buckets_ms_empty(b.drop_first());
    }
}

/// Elements carry their properties across a permutation: what holds of
/// every member of one arrangement holds of every member of the other.
proof fn lemma_ms_all_ok(a: Seq<Seq<char>>, b: Seq<Seq<char>>)
    requires
        a.to_multiset() == b.to_multiset(),
        all_bucket_ok(a),
    ensures
        all_bucket_ok(b),
{
    assert forall|m: int| 0 <= m < b.len() implies bucket_str_ok(#[trigger] b[m]) by {
        assert(b.contains(b[m]));
        assert(b.to_multiset().count(b[m]) > 0);
        assert(a.contains(b[m]));
        let n = choose|n: int| 0 <= n < a.len() && a[n] == b[m];
        assert(bucket_str_ok(a[n]));
    }
}

/// Distributes the strings into one bucket per character code, pass after
/// pass, and gathers the buckets back in code order: exactly the walk
/// `passes` describes, the scan position restarting at zero whenever it
/// runs past the end of a string.
pub fn sort(list: Vec<String>) -> (r: Vec<String>)
    requires
        list@.len() > 0,
        all_bucket_ok(list.deep_view()),
    ensures
        r@.len() == list@.len(),
        r.deep_view().to_multiset() == list.deep_view().to_multiset(),
        r.deep_view() == passes(list.deep_view(), max_len_of(list.deep_view())),
{
    broadcast use vstd::multiset::group_multiset_axioms;

    let ghost dv0 = list.deep_view();
    let ghost target = list.deep_view().to_multiset();
    let mut max_len: usize = 0;
    let mut m: usize = 0;
    proof {
        assert(dv0.subrange(0, 0) =~= Seq::<Seq<char>>::empty());
    }
    while m < list.len()
        invariant
            m <= list@.len(),
            dv0 == list.deep_view(),
            max_len as nat == max_len_of(dv0.subrange(0, m as int)),
        decreases list@.len() - m,
    {
        let l = list[m].as_str().unicode_len();
        proof {
            assert(dv0.subrange(0, m as int + 1).drop_last() =~= dv0.subrange(0, m as int));
            assert(dv0.subrange(0, m as int + 1).last() == dv0[m as int]);
        }
        if l > max_len {
            max_len = l;
        }
        m += 1;
    }
    proof {
        assert(dv0.subrange(0, list@.len() as int) =~= dv0);
    }
    let mut buckets: Vec<Vec<String>> = Vec::new();
    let mut bi: usize = 0;
    while bi < 126
        invariant
            buckets@.len() == bi,
            bi <= 126,
            forall|y: int| 0 <= y < bi ==> (#[trigger] buckets@[y])@.len() == 0,
        decreases 126 - bi,
    {
        buckets.push(Vec::new());
        bi += 1;
    }
    let mut work = list;
    let mut pass: usize = 0;
    while pass < max_len
        invariant
            pass <= max_len,
            max_len as nat == max_len_of(dv0),
            dv0 == list.deep_view(),
            buckets@.len() == 126,
            forall|y: int| 0 <= y < 126 ==> (#[trigger] buckets@[y])@.len() == 0,
            work.deep_view().to_multiset() == target,
            all_bucket_ok(work.deep_view()),
            work.deep_view() == passes(dv0, pass as nat),
        decreases max_len - pass,
    {
        let ghost dvw = work.deep_view();
        let ghost i0 = pass as int;
        let mut i = pass;
        let mut w_ix: usize = 0;
        proof {
            assert(forall|y: int| 0 <= y < 126 ==> (#[trigger] buckets.deep_view()[y]).len() == 0);
            lemma_buckets_ms_empty(buckets.deep_view());
            assert(dvw.subrange(0, 0) =~= Seq::<Seq<char>>::empty());
            assert(buckets_ms(buckets.deep_view()) =~= dvw.subrange(0, 0).to_multiset());
            assert forall|c: int| 0 <= c < 126 implies buckets.deep_view()[c] == bucket_upto(
                dvw,
                0,
                c,
                i0,
            ) by {
                assert(buckets.deep_view()[c] =~= Seq::<Seq<char>>::empty());
            }
        }
        while w_ix < work.len()
            invariant
                buckets@.len() == 126,
                w_ix <= work@.len(),
                dvw == work.deep_view(),
                all_bucket_ok(dvw),
                i as int == pos_before(dvw, w_ix as int, i0),
                buckets_ms(buckets.deep_view()) == dvw.subrange(0, w_ix as int).to_multiset(),
                forall|c: int|
                    0 <= c < 126 ==> (#[trigger] buckets.deep_view()[c]) == bucket_upto(
                        dvw,
                        w_ix as int,
                        c,
                        i0,
                    ),
            decreases work@.len() - w_ix,
        {
            let wlen = work[w_ix].as_str().unicode_len();
            if i >= wlen {
                i = 0;
            }
            proof {
                assert(bucket_str_ok(dvw[w_ix as int]));
                assert(i as int == eff_pos(dvw, w_ix as int, i0));
            }
            let ch = work[w_ix].as_str().get_char(i);
            let bucket = (ch as u32) as usize;
            let ghost bdv = buckets.deep_view();
            proof {
                assert(bucket as int == bucket_of(dvw, w_ix as int, i0));
            }
            buckets[bucket].push(work[w_ix].clone());
            proof {
                assert(buckets.deep_view() =~~= bdv.update(
                    bucket as int,
                    bdv[bucket as int].push(dvw[w_ix as int]),
                ));
                lemma_buckets_ms_push(bdv, bucket as int, dvw[w_ix as int]);
                assert(dvw.subrange(0, w_ix as int).push(dvw[w_ix as int]) =~= dvw.subrange(
                    0,
                    w_ix as int + 1,
                ));
                assert forall|c: int| 0 <= c < 126 implies (#[trigger] buckets.deep_view()[c])
                    == bucket_upto(dvw, w_ix as int + 1, c, i0) by {
                    if c == bucket as int {
                        assert(bdv[c] + seq![dvw[w_ix as int]] =~= bdv[c].push(
                            dvw[w_ix as int],
                        ));
                    } else {
                        assert(bdv[c] + Seq::<Seq<char>>::empty() =~= bdv[c]);
                    }
                }
            }
            w_ix += 1;
        }
        let mut temp: Vec<String> = Vec::new();
        let mut x: usize = 0;
        proof {
            assert(dvw.subrange(0, dvw.len() as int) =~= dvw);
            assert(buckets.deep_view().skip(0) =~= buckets.deep_view());
            assert(temp.deep_view().to_multiset() =~= Multiset::<Seq<char>>::empty());
            assert(temp.deep_view() =~= Seq::<Seq<char>>::empty());
        }
        while x < 126
            invariant
                buckets@.len() == 126,
                x <= 126,
                dvw == work.deep_view(),
                forall|y: int| 0 <= y < x ==> (#[trigger] buckets@[y])@.len() == 0,
                forall|c: int|
                    x <= c < 126 ==> (#[trigger] buckets.deep_view()[c]) == bucket_upto(
                        dvw,
                        dvw.len() as int,
                        c,
                        i0,
                    ),
                temp.deep_view().to_multiset().add(
                    buckets_ms(buckets.deep_view().skip(x as int)),
                ) == dvw.to_multiset(),
                one_pass(dvw, i0) == temp.deep_view() + gather_from(dvw, x as int, i0),
            decreases 126 - x,
        {
            let ghost bdv = buckets.deep_view();
            let ghost tdv = temp.deep_view();
            proof {
                lemma_buckets_ms_skip(bdv, x as int);
            }
            temp.append(&mut buckets[x]);
            proof {
                assert(temp.deep_view() =~= tdv + bdv[x as int]);
                vstd::seq_lib::lemma_multiset_commutative(tdv, bdv[x as int]);
                assert(buckets.deep_view() =~~= bdv.update(x as int, Seq::<Seq<char>>::empty()));
                assert(buckets.deep_view().skip(x as int + 1) =~= bdv.skip(x as int + 1));
                assert((tdv + bdv[x as int]) + gather_from(dvw, x as int + 1, i0) =~= tdv + (
                bdv[x as int] + gather_from(dvw, x as int + 1, i0)));
            }
            x += 1;
        }
        proof {
            assert(buckets.deep_view().skip(126) =~= Seq::<Seq<Seq<char>>>::empty());
            assert(temp.deep_view().to_multiset() =~= dvw.to_multiset());
            assert(gather_from(dvw, 126, i0) == Seq::<Seq<char>>::empty());
            assert(temp.deep_view() + Seq::<Seq<char>>::empty() =~= temp.deep_view());
            assert(temp.deep_view() == one_pass(dvw, i0));
            assert(temp.deep_view() == passes(dv0, (pass + 1) as nat));
            lemma_ms_all_ok(dvw, temp.deep_view());
        }
        work = temp;
        pass += 1;
    }
    proof {
        assert(work.deep_view().len() == work@.len());
        assert(list.deep_view().len() == list@.len());
        vstd::seq_lib::to_multiset_len(work.deep_view());
        vstd::seq_lib::to_multiset_len(list.deep_view());
    }
    work
}

} // verus!
