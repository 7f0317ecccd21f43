use vstd::prelude::*;

use crate::json::find_char;
use crate::textstat::is_wspace;

verus! {

/// The pieces of `s` from position `i` on, cut at every `d`; empty pieces
/// between adjacent separators stay.
pub open spec fn split_from(s: Seq<char>, i: int, d: char) -> Seq<Seq<char>>
    decreases s.len() - i,
{
    if i < 0 || i > s.len() {
        Seq::empty()
    } else {
        match find_char(s, i, d) {
            Some(j) => if i <= j < s.len() {
                seq![s.subrange(i, j)] + split_from(s, j + 1, d)
            } else {
                Seq::empty()
            },
            None => seq![s.subrange(i, s.len() as int)],
        }
    }
}

pub open spec fn split_at_char(s: Seq<char>, d: char) -> Seq<Seq<char>> {
    split_from(s, 0, d)
}

/// The position of the first whitespace character at or after `i`.
pub open spec fn find_blank(s: Seq<char>, i: int) -> Option<int>
    decreases s.len() - i,
{
    if i < 0 || i >= s.len() {
        None
    } else if is_wspace(s[i]) {
        Some(i)
    } else {
        find_blank(s, i + 1)
    }
}

proof fn lemma_find_blank_bounds(s: Seq<char>, i: int)
    requires
        0 <= i,
    ensures
        match find_blank(s, i) {
            Some(j) => i <= j < s.len() && is_wspace(s[j]) && forall|m: int|
                i <= m < j ==> !is_wspace(#[trigger] s[m]),
            None => forall|m: int| i <= m < s.len() ==> !is_wspace(#[trigger] s[m]),
        },
    decreases s.len() - i,
{
    if 0 <= i < s.len() && !is_wspace(s[i]) {
        lemma_find_blank_bounds(s, i + 1);
    }
}

/// The whitespace-separated words of `s` from position `i` on; runs of
/// whitespace leave no empty pieces.
pub open spec fn words_from(s: Seq<char>, i: int) -> Seq<Seq<char>>
    decreases s.len() - i,
{
    if i < 0 || i >= s.len() {
        Seq::empty()
    } else if is_wspace(s[i]) {
        words_from(s, i + 1)
    } else {
        match find_blank(s, i) {
            Some(j) => if i < j < s.len() {
                seq![s.subrange(i, j)] + words_from(s, j)
            } else {
                Seq::empty()
            },
            None => seq![s.subrange(i, s.len() as int)],
        }
    }
}

pub open spec fn words_of(s: Seq<char>) -> Seq<Seq<char>> {
    words_from(s, 0)
}

/// Cuts the line at every occurrence of the delimiter, empty pieces kept.
pub fn split_by_char(line: &str, d: char) -> (r: Vec<String>)
    ensures
        r.deep_view() == split_at_char(line@, d),
{
    let len = line.unicode_len();
    let mut parts: Vec<String> = Vec::new();
    let mut start: usize = 0;
    let mut i: usize = 0;
    proof {
        assert(parts.deep_view() =~= Seq::<Seq<char>>::empty());
    }
    while i < len
        invariant
            start <= i <= len,
            len == line@.len(),
            forall|m: int| start <= m < i ==> (#[trigger] line@[m]) != d,
            split_at_char(line@, d) == parts.deep_view() + split_from(line@, start as int, d),
        decreases len - i,
    {
        let ghost pdv = parts.deep_view();
        let c = line.get_char(i);
        if c == d {
            proof {
                lemma_find_char_matches(line@, start as int, i as int, d);
            }
            parts.push(String::from_str(line.substring_char(start, i)));
            proof {
                assert(parts.deep_view() =~= pdv.push(line@.subrange(start as int, i as int)));
                assert(pdv + (seq![line@.subrange(start as int, i as int)] + split_from(
                    line@,
                    i as int + 1,
                    d,
                )) =~= parts.deep_view() + split_from(line@, i as int + 1, d));
            }
            start = i + 1;
        }
        i += 1;
    }
    let ghost pdv = parts.deep_view();
    proof {
        crate::json::lemma_find_char_bounds(line@, start as int, d);
        match find_char(line@, start as int, d) {
            Some(j) => {
                assert(line@[j] != d);
            },
            None => {},
        }
    }
    parts.push(String::from_str(line.substring_char(start, len)));
    proof {
        assert(parts.deep_view() =~= pdv.push(line@.subrange(start as int, len as int)));
        assert(pdv + seq![line@.subrange(start as int, len as int)] =~= parts.deep_view());
    }
    parts
}

proof fn lemma_find_char_matches(s: Seq<char>, start: int, i: int, d: char)
    requires
        0 <= start <= i < s.len(),
        s[i] == d,
        forall|m: int| start <= m < i ==> (#[trigger] s[m]) != d,
    ensures
        find_char(s, start, d) == Some(i),
    decreases i - start,
{
    if start < i {
        lemma_find_char_matches(s, start + 1, i, d);
    }
}

/// Cuts the line at whitespace runs, empty pieces dropped.
pub fn split_words(line: &str) -> (r: Vec<String>)
    ensures
        r.deep_view() == words_of(line@),
{
    let len = line.unicode_len();
    let mut parts: Vec<String> = Vec::new();
    let mut i: usize = 0;
    proof {
        assert(parts.deep_view() =~= Seq::<Seq<char>>::empty());
    }
    while i < len
        invariant
            i <= len,
            len == line@.len(),
            words_of(line@) == parts.deep_view() + words_from(line@, i as int),
        decreases len - i,
    {
        let c = line.get_char(i);
        let v = c as u32;
        let blank = c == ' ' || c == '\t' || c == '\n' || c == '\r' || v == 11 || v == 12;
        if blank {
            i += 1;
        } else {
            let mut j = i + 1;
            while j < len && !is_blank_char(line.get_char(j))
                invariant
                    i < j <= len,
                    len == line@.len(),
                    forall|m: int| i <= m < j ==> !is_wspace(#[trigger] line@[m]),
                decreases len - j,
            {
                j += 1;
            }
            proof {
                lemma_find_blank_bounds(line@, i as int);
            }
            let ghost pdv = parts.deep_view();
            parts.push(String::from_str(line.substring_char(i, j)));
            proof {
                assert(parts.deep_view() =~= pdv.push(line@.subrange(i as int, j as int)));
                if j < len {
                    assert(pdv + (seq![line@.subrange(i as int, j as int)] + words_from(
                        line@,
                        j as int,
                    )) =~= parts.deep_view() + words_from(line@, j as int));
                } else {
                    assert(pdv + seq![line@.subrange(i as int, len as int)]
                        =~= parts.deep_view());
                }
            }
            i = j;
        }
    }
    parts
}

fn is_blank_char(c: char) -> (r: bool)
    ensures
        r == is_wspace(c),
{
    let v = c as u32;
    c == ' ' || c == '\t' || c == '\n' || c == '\r' || v == 11 || v == 12
}

/// Whether every requested field number names a piece: they count from
/// one.
pub open spec fn fields_ok(nparts: nat, fields: Seq<usize>) -> bool {
    forall|k: int| 0 <= k < fields.len() ==> 1 <= (#[trigger] fields[k]) && fields[k] <= nparts
}

/// The requested pieces in request order, each followed by the delimiter.
pub open spec fn joined_fields(parts: Seq<Seq<char>>, fields: Seq<usize>, delim: Seq<char>) -> Seq<
    char,
>
    decreases fields.len(),
{
    if fields.len() == 0 {
        Seq::empty()
    } else {
        parts[fields[0] - 1] + delim + joined_fields(parts, fields.drop_first(), delim)
    }
}

proof fn lemma_joined_snoc(parts: Seq<Seq<char>>, fields: Seq<usize>, f: usize, delim: Seq<char>)
    requires
        1 <= f <= parts.len(),
    ensures
        joined_fields(parts, fields.push(f), delim) == joined_fields(parts, fields, delim)
            + parts[f - 1] + delim,
    decreases fields.len(),
{
    if fields.len() == 0 {
        assert(fields.push(f)[0] == f);
        assert(fields.push(f).drop_first() =~= Seq::<usize>::empty());
        assert(joined_fields(parts, Seq::<usize>::empty(), delim) == Seq::<char>::empty());
        assert(joined_fields(parts, fields.push(f), delim) =~= joined_fields(parts, fields, delim)
            + parts[f - 1] + delim);
    } else {
        assert(fields.push(f)[0] == fields[0]);
        assert(fields.push(f).drop_first() =~= fields.drop_first().push(f));
        lemma_joined_snoc(parts, fields.drop_first(), f, delim);
        assert(joined_fields(parts, fields.push(f), delim) =~= joined_fields(parts, fields, delim)
            + parts[f - 1] + delim);
    }
}

/// Picks the requested one-based fields out of the pieces and writes them
/// out, each followed by the delimiter. Nothing comes back exactly when
/// some requested field names no piece.
pub fn select_fields(parts: &Vec<String>, fields: &Vec<usize>, delim: &String) -> (r: Option<
    String,
>)
    ensures
        r is Some <==> fields_ok(parts@.len(), fields@),
        fields_ok(parts@.len(), fields@) ==> (r matches Some(out) && out@ == joined_fields(
            parts.deep_view(),
            fields@,
            delim@,
        )),
{
    let mut out = String::new();
    let n = fields.len();
    let mut k: usize = 0;
    proof {
        assert(fields@.subrange(0, 0) =~= Seq::<usize>::empty());
    }
    while k < n
        invariant
            k <= n,
            n == fields@.len(),
            forall|m: int| 0 <= m < k ==> 1 <= (#[trigger] fields@[m]) && fields@[m] <= parts@.len(),
            out@ == joined_fields(parts.deep_view(), fields@.subrange(0, k as int), delim@),
        decreases n - k,
    {
        let f = fields[k];
        if f == 0 || f > parts.len() {
            return None;
        }
        out.append(parts[f - 1].as_str());
        out.append(delim.as_str());
        proof {
            lemma_joined_snoc(parts.deep_view(), fields@.subrange(0, k as int), f, delim@);
            assert(fields@.subrange(0, k as int).push(f) =~= fields@.subrange(0, k as int + 1));
            assert(parts.deep_view()[f - 1] == parts@[f - 1]@);
        }
        k += 1;
    }
    proof {
        assert(fields@.subrange(0, n as int) =~= fields@);
    }
    Some(out)
}

} // verus!
