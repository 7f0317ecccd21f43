use vstd::prelude::*;

verus! {

/// ASCII whitespace, as the word counter sees it: blank, tab, line feed,
/// carriage return, vertical tab, form feed.
pub open spec fn is_wspace(c: char) -> bool {
    c == ' ' || c == '\t' || c == '\n' || c == '\r' || c as int == 11 || c as int == 12
}

/// How many line-feed characters the text holds.
pub open spec fn newline_count(s: Seq<char>) -> nat
    decreases s.len(),
{
    if s.len() == 0 {
        0
    } else {
        newline_count(s.drop_last()) + (if s.last() == '\n' {
            1nat
        } else {
            0nat
        })
    }
}

/// How many lines the text holds: every line feed ends one, and a final
/// line left unterminated still counts.
pub open spec fn line_count(s: Seq<char>) -> nat {
    if s.len() == 0 {
        0
    } else if s.last() == '\n' {
        newline_count(s)
    } else {
        newline_count(s) + 1
    }
}

/// How many maximal whitespace-free runs the text holds: one per position
/// that carries a non-blank character right after a blank or the start.
pub open spec fn word_count(s: Seq<char>) -> nat
    decreases s.len(),
{
    if s.len() == 0 {
        0
    } else {
        word_count(s.drop_last()) + (if !is_wspace(s.last()) && (s.len() == 1 || is_wspace(
            s[s.len() - 2],
        )) {
            1nat
        } else {
            0nat
        })
    }
}

proof fn lemma_newline_count_le(s: Seq<char>)
    ensures
        newline_count(s) <= s.len(),
    decreases s.len(),
{
    if s.len() > 0 {
        lemma_newline_count_le(s.drop_last());
    }
}

/// Counts the lines of the text.
pub fn count_lines(content: &str) -> (r: usize)
    ensures
        r as nat == line_count(content@),
{
    let len = content.unicode_len();
    if len == 0 {
        return 0;
    }
    let mut cnt: usize = 0;
    let mut i: usize = 0;
    while i < len
        invariant
            i <= len,
            len == content@.len(),
            cnt <= i,
            cnt as nat == newline_count(content@.subrange(0, i as int)),
        decreases len - i,
    {
        let c = content.get_char(i);
        proof {
            assert(content@.subrange(0, i as int + 1).drop_last() =~= content@.subrange(
                0,
                i as int,
            ));
            assert(content@.subrange(0, i as int + 1).last() == content@[i as int]);
        }
        if c == '\n' {
            cnt += 1;
        }
        i += 1;
    }
    proof {
        assert(content@.subrange(0, len as int) =~= content@);
    }
    if content.get_char(len - 1) == '\n' {
        cnt
    } else {
        proof {
            lemma_newline_count_le(content@.drop_last());
            assert(newline_count(content@) == newline_count(content@.drop_last()));
        }
        cnt + 1
    }
}

/// Counts the whitespace-separated words of the text.
pub fn count_words(content: &str) -> (r: usize)
    ensures
        r as nat == word_count(content@),
{
    let len = content.unicode_len();
    let mut cnt: usize = 0;
    let mut i: usize = 0;
    let mut prev_blank = true;
    while i < len
        invariant
            i <= len,
            len == content@.len(),
            cnt <= i,
            cnt as nat == word_count(content@.subrange(0, i as int)),
            i == 0 ==> prev_blank,
            i > 0 ==> prev_blank == is_wspace(content@[i - 1]),
        decreases len - i,
    {
        let c = content.get_char(i);
        let v = c as u32;
        let blank = c == ' ' || c == '\t' || c == '\n' || c == '\r' || v == 11 || v == 12;
        proof {
            assert(content@.subrange(0, i as int + 1).drop_last() =~= content@.subrange(
                0,
                i as int,
            ));
            assert(content@.subrange(0, i as int + 1).last() == content@[i as int]);
            if i > 0 {
                assert(content@.subrange(0, i as int + 1)[i - 1] == content@[i - 1]);
            }
        }
        if !blank && prev_blank {
            cnt += 1;
        }
        prev_blank = blank;
        i += 1;
    }
    proof {
        assert(content@.subrange(0, len as int) =~= content@);
    }
    cnt
}

/// Counts the characters of the text.
pub fn count_chars(content: &str) -> (r: usize)
    ensures
        r as nat == content@.len(),
{
    content.unicode_len()
}

/// Counts the bytes of the text.
pub fn count_bytes(content: &str) -> (r: usize)
    ensures
        r as nat == vstd::utf8::encode_utf8(content@).len(),
{
    let bytes = content.as_bytes_vec();
    bytes.len()
}

} // verus!
