use sha1::Digest;
use sha1::Sha1;
use vstd::prelude::*;

use crate::numerals::dec_digits;
use crate::numerals::usize_to_string;

verus! {

/// One entry of a fresh repository layout: a name, and whether it is a
/// directory.
pub struct GitFile {
    pub name: &'static str,
    pub is_dir: bool,
}

impl GitFile {
    /// The seven entries a fresh repository starts with: three files, four
    /// directories, in this order.
    pub fn new() -> (r: Vec<GitFile>)
        ensures
            r@.len() == 7,
            r@[0].name@ == "HEAD"@ && !r@[0].is_dir,
            r@[1].name@ == "config"@ && !r@[1].is_dir,
            r@[2].name@ == "description"@ && !r@[2].is_dir,
            r@[3].name@ == "hooks"@ && r@[3].is_dir,
            r@[4].name@ == "info"@ && r@[4].is_dir,
            r@[5].name@ == "objects"@ && r@[5].is_dir,
            r@[6].name@ == "refs"@ && r@[6].is_dir,
    {
        let mut files: Vec<GitFile> = Vec::new();
        files.push(GitFile { name: "HEAD", is_dir: false });
        files.push(GitFile { name: "config", is_dir: false });
        files.push(GitFile { name: "description", is_dir: false });
        files.push(GitFile { name: "hooks", is_dir: true });
        files.push(GitFile { name: "info", is_dir: true });
        files.push(GitFile { name: "objects", is_dir: true });
        files.push(GitFile { name: "refs", is_dir: true });
        files
    }
}

/// The SHA-1 digest of a text's bytes: named, not spelled out, since only
/// the outside hasher computes it. It depends on the text alone.
pub uninterp spec fn sha1_of(s: Seq<char>) -> Seq<u8>;

/// Relies on sha1's digest API: `update` then `finalize` yields the SHA-1
/// digest of the input bytes, always 20 bytes, a function of the input
/// alone.
#[verifier::external_body]
fn sha1_digest(store: &str) -> (r: Vec<u8>)
    ensures
        r@ == sha1_of(store@),
        r@.len() == 20,
{
    let mut hasher = Sha1::new();
    hasher.update(store);
    hasher.finalize().to_vec()
}

pub open spec fn hex_digit(d: nat) -> char {
    if d == 0 {
        '0'
    } else if d == 1 {
        '1'
    } else if d == 2 {
        '2'
    } else if d == 3 {
        '3'
    } else if d == 4 {
        '4'
    } else if d == 5 {
        '5'
    } else if d == 6 {
        '6'
    } else if d == 7 {
        '7'
    } else if d == 8 {
        '8'
    } else if d == 9 {
        '9'
    } else if d == 10 {
        'a'
    } else if d == 11 {
        'b'
    } else if d == 12 {
        'c'
    } else if d == 13 {
        'd'
    } else if d == 14 {
        'e'
    } else {
        'f'
    }
}

/// Lowercase hex text of a byte run: two digits per byte, high nibble
/// first.
pub open spec fn hex_of(bytes: Seq<u8>) -> Seq<char>
    decreases bytes.len(),
{
    if bytes.len() == 0 {
        Seq::empty()
    } else {
        hex_of(bytes.drop_last()) + seq![
            hex_digit((bytes.last() / 16) as nat),
            hex_digit((bytes.last() % 16) as nat),
        ]
    }
}

pub proof fn lemma_hex_len(bytes: Seq<u8>)
    ensures
        hex_of(bytes).len() == 2 * bytes.len(),
    decreases bytes.len(),
{
    if bytes.len() > 0 {
        lemma_hex_len(bytes.drop_last());
    }
}

/// Relies on hex::encode: two lowercase hex digits for each byte, high
/// nibble first, in input order.
#[verifier::external_body]
fn to_hex(bytes: &Vec<u8>) -> (r: String)
    ensures
        r@ == hex_of(bytes@),
{
    hex::encode(bytes.as_slice())
}

/// The hex text of the SHA-1 digest of `store`: forty hex digits.
pub fn calc_content_sha1(store: String) -> (r: String)
    ensures
        r@ == hex_of(sha1_of(store@)),
        r@.len() == 40,
{
    let digest = sha1_digest(store.as_str());
    proof {
        lemma_hex_len(digest@);
    }
    to_hex(&digest)
}

/// The text a blob object is hashed over: a header naming the byte length,
/// a zero byte, then the content.
pub open spec fn blob_store(content: Seq<char>) -> Seq<char> {
    "blob "@ + dec_digits(vstd::utf8::encode_utf8(content).len()) + seq!['\0'] + content
}

/// The object name of a blob holding `content`: the hex SHA-1 of the
/// header-framed content.
pub fn calc_hash_object(content: String) -> (r: String)
    ensures
        r@ == hex_of(sha1_of(blob_store(content@))),
        r@.len() == 40,
{
    let bytes = content.as_str().as_bytes_vec();
    let mut store = String::from_str("blob ");
    store.append(usize_to_string(bytes.len()).as_str());
    store.append("\0");
    store.append(content.as_str());
    proof {
        reveal_strlit("\0");
        assert(store@ =~= blob_store(content@));
    }
    calc_content_sha1(store)
}

} // verus!
