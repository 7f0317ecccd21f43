use vstd::prelude::*;

verus! {

/// The non-overlapping matches of a pattern in a text, first to last: what
/// the regex engine finds. Named, not spelled out; it depends on pattern
/// and text alone.
pub uninterp spec fn regex_find_matches(pattern: Seq<char>, text: Seq<char>) -> Seq<Seq<char>>;

/// Whether the engine accepts the pattern: compiling is deterministic in
/// the pattern alone, so its success has a name too.
pub uninterp spec fn regex_compiles(pattern: Seq<char>) -> bool;

/// Relies on regex's `Regex::new` and `Regex::find_iter`: compiling fails
/// exactly on pattern syntax the engine refuses, a function of the pattern
/// alone, and the iterator walks the leftmost non-overlapping matches in
/// order, a function of pattern and text alone.
#[verifier::external_body]
fn regex_find_all(pattern: &str, text: &str) -> (r: Option<Vec<String>>)
    ensures
        r is Some <==> regex_compiles(pattern@),
        r matches Some(v) ==> v.deep_view() == regex_find_matches(pattern@, text@),
{
    match regex::Regex::new(pattern) {
        Ok(re) => Some(re.find_iter(text).map(|m| m.as_str().to_string()).collect()),
        Err(_) => None,
    }
}

/// The pattern the search really runs: anything around the given one.
pub open spec fn wrap_pattern(p: Seq<char>) -> Seq<char> {
    ".*"@ + p + ".*"@
}

/// The search over one file's content: the lines to print, one per match
/// and prefixed with the file's name when the search is recursive, and
/// whether anything matched at all. Nothing comes back exactly when the
/// wrapped pattern does not compile.
pub fn find_match(pattern: &String, path: &String, content: &String, recursive: bool) -> (r: Option<
    (Vec<String>, bool),
>)
    ensures
        r is Some <==> regex_compiles(wrap_pattern(pattern@)),
        match r {
            Some(t) => {
                let ms = regex_find_matches(wrap_pattern(pattern@), content@);
                &&& t.1 == (ms.len() > 0)
                &&& t.0.deep_view().len() == ms.len()
                &&& forall|k: int|
                    0 <= k < ms.len() ==> t.0.deep_view()[k] == (if recursive {
                        path@ + seq![':'] + ms[k]
                    } else {
                        ms[k]
                    })
            },
            None => true,
        },
{
    let mut full = String::from_str(".*");
    full.append(pattern.as_str());
    full.append(".*");
    proof {
        assert(full@ =~= wrap_pattern(pattern@));
    }
    let found = regex_find_all(full.as_str(), content.as_str());
    match found {
        None => None,
        Some(ms) => {
            let ghost mview = regex_find_matches(wrap_pattern(pattern@), content@);
            let mut out: Vec<String> = Vec::new();
            let mut k: usize = 0;
            let n = ms.len();
            while k < n
                invariant
                    k <= n,
                    n == ms@.len(),
                    ms.deep_view() == mview,
                    ms.deep_view().len() == ms@.len(),
                    out.deep_view().len() == k,
                    forall|m: int|
                        0 <= m < k ==> out.deep_view()[m] == (if recursive {
                            path@ + seq![':'] + mview[m]
                        } else {
                            mview[m]
                        }),
                decreases n - k,
            {
                let ghost odv = out.deep_view();
                let line = if recursive {
                    let mut line = path.clone();
                    line.append(":");
                    line.append(ms[k].as_str());
                    proof {
                        reveal_strlit(":");
                        assert(ms.deep_view()[k as int] == ms@[k as int]@);
                        assert(line@ =~= path@ + seq![':'] + mview[k as int]);
                    }
                    line
                } else {
                    ms[k].clone()
                };
                out.push(line);
                proof {
                    assert(ms.deep_view()[k as int] == ms@[k as int]@);
                    assert(out.deep_view() =~= odv.push(line@));
                }
                k += 1;
            }
            let has = n > 0;
            Some((out, has))
        },
    }
}

} // verus!
