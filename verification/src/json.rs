use vstd::prelude::*;

use crate::numerals::is_digit;

verus! {

/// A brace-matching check over JSON-like text: a single pass that keeps a
/// stack of the open brackets, skips string bodies, and stops early on a
/// keyword or separator it does not accept. The text passes when the scan
/// runs to the end with every bracket closed.
pub struct Json {
    stack: Vec<String>,
    #[allow(dead_code)]
    keywords: Vec<String>,
}

/// The position of the first `c` at or after `i`.
pub open spec fn find_char(s: Seq<char>, i: int, c: char) -> Option<int>
    decreases s.len() - i,
{
    if i < 0 || i >= s.len() {
        None
    } else if s[i] == c {
        Some(i)
    } else {
        find_char(s, i + 1, c)
    }
}

pub(crate) proof fn lemma_find_char_bounds(s: Seq<char>, i: int, c: char)
    requires
        0 <= i,
    ensures
        match find_char(s, i, c) {
            Some(j) => i <= j < s.len() && s[j] == c && forall|m: int|
                i <= m < j ==> (#[trigger] s[m]) != c,
            None => forall|m: int| i <= m < s.len() ==> (#[trigger] s[m]) != c,
        },
    decreases s.len() - i,
{
    if 0 <= i < s.len() && s[i] != c {
        lemma_find_char_bounds(s, i + 1, c);
    }
}

/// The scan, one step per consumed character run: the bracket stack when it
/// stops, or nothing where the pass runs out of text mid-unit or pops an
/// empty stack.
pub open spec fn json_scan(s: Seq<char>, i: int, st: Seq<Seq<char>>) -> Option<Seq<Seq<char>>>
    decreases s.len() - i,
{
    if i < 0 {
        None
    } else if i >= s.len() {
        Some(st)
    } else {
        let c = s[i];
        if c == '{' || c == '[' {
            json_scan(s, i + 1, st.push(seq![c]))
        } else if c == '}' || c == ']' {
            if st.len() == 0 {
                None
            } else {
                json_scan(s, i + 1, st.drop_last())
            }
        } else if c == '"' {
            match find_char(s, i + 1, '"') {
                None => None,
                Some(q) => if i + 1 <= q < s.len() {
                    json_scan(s, q + 1, st)
                } else {
                    None
                },
            }
        } else if c == ',' {
            if i + 1 >= s.len() {
                None
            } else {
                let d = s[i + 1];
                if d == '\n' || d == '"' {
                    json_scan(s, i + 2, st)
                } else if st.len() == 0 {
                    None
                } else if st.last() != seq!['['] {
                    Some(st)
                } else {
                    json_scan(s, i + 2, st)
                }
            }
        } else if c == 't' || c == 'f' || c == 'n' {
            match find_char(s, i + 1, ',') {
                None => None,
                Some(q) => if i + 1 <= q < s.len() {
                    if (c == 't' && s.subrange(i, q) == "true"@) || (c == 'f' && s.subrange(i, q)
                        == "false"@) || (c == 'n' && s.subrange(i, q) == "null"@) {
                        json_scan(s, q + 1, st)
                    } else {
                        Some(st)
                    }
                } else {
                    None
                },
            }
        } else if is_digit(c) || c == ' ' || c == ':' || c == '\n' {
            json_scan(s, i + 1, st)
        } else {
            Some(st)
        }
    }
}

impl Json {
    /// The open brackets, innermost last.
    pub closed spec fn stack_view(&self) -> Seq<Seq<char>> {
        self.stack.deep_view()
    }

    pub fn new() -> (r: Json)
        ensures
            r.stack_view() == Seq::<Seq<char>>::empty(),
    {
        let mut keywords: Vec<String> = Vec::new();
        keywords.push(String::from_str("null"));
        let r = Json { stack: Vec::new(), keywords };
        proof {
            assert(r.stack_view() =~= Seq::<Seq<char>>::empty());
        }
        r
    }

    /// Runs the scan over the text. The result is whether the scan ended
    /// with an empty bracket stack. A scan that would run out of text
    /// mid-unit, or pop a closer off the empty stack, has no stack to
    /// answer with: it deliberately reports failure instead of halting, so
    /// no input stops the check.
    pub fn parse(&mut self, input: String) -> (r: bool)
        ensures
            input@.len() == 0 ==> r == false && *final(self) == *old(self),
            input@.len() > 0 ==> match json_scan(input@, 0, old(self).stack_view()) {
                Some(st) => r == (st.len() == 0) && final(self).stack_view() == st,
                None => r == false,
            },
    {
        let len = input.as_str().unicode_len();
        if len == 0 {
            return false;
        }
        let mut i: usize = 0;
        while i < len
            invariant
                i <= len,
                len == input@.len(),
                json_scan(input@, 0, old(self).stack_view()) == json_scan(
                    input@,
                    i as int,
                    self.stack_view(),
                ),
            decreases len - i,
        {
            let ghost st0 = self.stack_view();
            proof {
                reveal_strlit("{");
                reveal_strlit("[");
                assert("{"@ =~= seq!['{']);
                assert("["@ =~= seq!['[']);
            }
            let c = input.as_str().get_char(i);
            if c == '{' || c == '[' {
                if c == '{' {
                    self.stack.push(String::from_str("{"));
                } else {
                    self.stack.push(String::from_str("["));
                }
                proof {
                    assert(self.stack_view() =~~= st0.push(seq![c]));
                }
                i += 1;
            } else if c == '}' || c == ']' {
                if self.stack.len() == 0 {
                    return false;
                }
                let _ = self.stack.pop();
                proof {
                    assert(self.stack_view() =~= st0.drop_last());
                }
                i += 1;
            } else if c == '"' {
                let mut j = i + 1;
                while j < len && input.as_str().get_char(j) != '"'
                    invariant
                        i + 1 <= j <= len,
                        len == input@.len(),
                        forall|m: int| i + 1 <= m < j ==> (#[trigger] input@[m]) != '"',
                    decreases len - j,
                {
                    j += 1;
                }
                proof {
                    lemma_find_char_bounds(input@, i as int + 1, '"');
                }
                if j >= len {
                    return false;
                }
                i = j + 1;
            } else if c == ',' {
                if i + 1 >= len {
                    return false;
                }
                let d = input.as_str().get_char(i + 1);
                if d == '\n' || d == '"' {
                    i += 2;
                } else if self.stack.len() == 0 {
                    return false;
                } else {
                    let n = self.stack.len();
                    proof {
                        assert(st0.len() == self.stack@.len());
                        assert(st0.last() == self.stack@[n - 1]@);
                    }
                    if !(self.stack[n - 1] == String::from_str("[")) {
                        return self.stack.is_empty();
                    }
                    proof {
                        assert(st0.last() == seq!['[']);
                    }
                    i += 2;
                }
            } else if c == 't' || c == 'f' || c == 'n' {
                let mut j = i + 1;
                while j < len && input.as_str().get_char(j) != ','
                    invariant
                        i + 1 <= j <= len,
                        len == input@.len(),
                        forall|m: int| i + 1 <= m < j ==> (#[trigger] input@[m]) != ',',
                    decreases len - j,
                {
                    j += 1;
                }
                proof {
                    lemma_find_char_bounds(input@, i as int + 1, ',');
                }
                if j >= len {
                    return false;
                }
                let word = String::from_str(input.as_str().substring_char(i, j));
                let matched = if c == 't' {
                    word == String::from_str("true")
                } else if c == 'f' {
                    word == String::from_str("false")
                } else {
                    word == String::from_str("null")
                };
                if matched {
                    i = j + 1;
                } else {
                    return self.stack.is_empty();
                }
            } else {
                let v = c as u32;
                let walkable = (48 <= v && v <= 57) || c == ' ' || c == ':' || c == '\n';
                if walkable {
                    i += 1;
                } else {
                    return self.stack.is_empty();
                }
            }
        }
        self.stack.is_empty()
    }
}

} // verus!
