//! Naming and hashing: content hashes, the rules for bucket names and object
//! keys, and the content type that a key's suffix stands for.

use crate::text::{
    chars_of, contains, contains_char, contains_text, lower_char, lower_text, same_text,
    starts_with, text_of_range, to_lower,
};
use sha2::Digest;
use vstd::prelude::*;
use vstd::string::*;

verus! {

/// The SHA-256 digest of `data`, written as lower-case hexadecimal digits.
pub uninterp spec fn sha256_hex(data: Seq<u8>) -> Seq<char>;

/// The MD5 digest of `data`, written as lower-case hexadecimal digits.
pub uninterp spec fn md5_hex(data: Seq<u8>) -> Seq<char>;

/// Hashes `data` with `sha2::Sha256` (`new`, `update`, `finalize`) and formats
/// the digest with `{:x}`. The digest has 32 bytes and each is written as two
/// digits, so the text has 64 characters; which ones is left to the name
/// `sha256_hex`.
#[verifier::external_body]
pub fn sha256_hash(data: &[u8]) -> (r: String)
    ensures
        r@ == sha256_hex(data@),
        r@.len() == 64,
{
    let mut hasher = sha2::Sha256::new();
    hasher.update(data);
    format!("{:x}", hasher.finalize())
}

/// Hashes `data` with `md5::compute` and formats the digest with `{:x}`. The
/// digest has 16 bytes and each is written as two digits, so the text has 32
/// characters; which ones depends on the bytes alone and is left to the name
/// `md5_hex`.
#[verifier::external_body]
pub fn md5_hash(data: &[u8]) -> (r: String)
    ensures
        r@ == md5_hex(data@),
        r@.len() == 32,
{
    let digest = md5::compute(data);
    format!("{:x}", digest)
}

/// The entity tag of `data`: its MD5 digest between double quotes.
pub open spec fn etag_of(data: Seq<u8>) -> Seq<char> {
    seq!['"'] + md5_hex(data) + seq!['"']
}

/// Computes the entity tag of `data`.
pub fn generate_etag(data: &[u8]) -> (r: String)
    ensures
        r@ == etag_of(data@),
        r@.len() == 34,
{
    let digest = md5_hash(data);
    let mut out = String::new();
    out.push('"');
    out.append(digest.as_str());
    out.push('"');
    proof {
        assert(out@ =~= etag_of(data@));
    }
    out
}

pub open spec fn is_ascii_letter(c: char) -> bool {
    ('a' <= c && c <= 'z') || ('A' <= c && c <= 'Z')
}

pub open spec fn is_ascii_digit(c: char) -> bool {
    '0' <= c && c <= '9'
}

/// The characters a bucket name is made of.
pub open spec fn is_bucket_char(c: char) -> bool {
    is_ascii_letter(c) || is_ascii_digit(c) || c == '-'
}

/// A bucket name is a letter followed by at most 62 letters, digits and
/// hyphens, the last of which is no hyphen.
pub open spec fn valid_bucket_name(name: Seq<char>) -> bool {
    &&& 1 <= name.len() <= 63
    &&& is_ascii_letter(name[0])
    &&& forall|i: int| 0 <= i < name.len() ==> is_bucket_char(#[trigger] name[i])
    &&& name.last() != '-'
}

/// What is wrong with a name that is no bucket name: the first of the rules,
/// in the order given here, that it breaks.
pub open spec fn bucket_name_complaint(name: Seq<char>) -> Seq<char> {
    if name.len() == 0 {
        "Bucket name cannot be empty"@
    } else if name.len() > 63 {
        "Bucket name cannot be longer than 63 characters"@
    } else if exists|i: int| 0 <= i < name.len() && !is_bucket_char(#[trigger] name[i]) {
        "Bucket name can only contain alphanumeric characters and hyphens"@
    } else if name[0] == '-' || name.last() == '-' {
        "Bucket name cannot start or end with a hyphen"@
    } else {
        "Bucket name cannot start with a number"@
    }
}

fn is_bucket_character(c: char) -> (r: bool)
    ensures
        r == is_bucket_char(c),
{
    (c >= 'a' && c <= 'z') || (c >= 'A' && c <= 'Z') || (c >= '0' && c <= '9') || c == '-'
}

/// Accepts exactly the bucket names; a refusal says which rule was broken.
pub fn validate_bucket_name(name: &str) -> (r: Result<(), String>)
    ensures
        r is Ok <==> valid_bucket_name(name@),
        r matches Err(complaint) ==> complaint@ == bucket_name_complaint(name@),
{
    let chars = chars_of(name);
    let n = chars.len();
    if n == 0 {
        return Err("Bucket name cannot be empty".to_string());
    }
    if n > 63 {
        return Err("Bucket name cannot be longer than 63 characters".to_string());
    }
    let mut i: usize = 0;
    while i < n
        invariant
            i <= n,
            1 <= n <= 63,
            n == chars.len(),
            chars@ == name@,
            forall|j: int| 0 <= j < i ==> is_bucket_char(#[trigger] chars@[j]),
        decreases n - i,
    {
        if !is_bucket_character(chars[i]) {
            return Err(
                "Bucket name can only contain alphanumeric characters and hyphens".to_string(),
            );
        }
        i += 1;
    }
    if chars[0] == '-' || chars[n - 1] == '-' {
        return Err("Bucket name cannot start or end with a hyphen".to_string());
    }
    if chars[0] >= '0' && chars[0] <= '9' {
        return Err("Bucket name cannot start with a number".to_string());
    }
    proof {
        assert(is_bucket_char(chars@[0]));
    }
    Ok(())
}

/// An object key is not empty, has at most 1024 characters and does not hold
/// two dots in a row.
pub open spec fn valid_object_key(key: Seq<char>) -> bool {
    &&& 1 <= key.len() <= 1024
    &&& !contains_text(key, seq!['.', '.'])
}

/// What is wrong with a text that is no object key: the first of the rules,
/// in the order given here, that it breaks.
pub open spec fn object_key_complaint(key: Seq<char>) -> Seq<char> {
    if key.len() == 0 {
        "Object key cannot be empty"@
    } else if key.len() > 1024 {
        "Object key cannot be longer than 1024 characters"@
    } else {
        "Object key cannot contain '..'"@
    }
}

/// Accepts exactly the object keys; a refusal says which rule was broken.
pub fn validate_object_key(key: &str) -> (r: Result<(), String>)
    ensures
        r is Ok <==> valid_object_key(key@),
        r matches Err(complaint) ==> complaint@ == object_key_complaint(key@),
{
    let chars = chars_of(key);
    if chars.len() == 0 {
        return Err("Object key cannot be empty".to_string());
    }
    if chars.len() > 1024 {
        return Err("Object key cannot be longer than 1024 characters".to_string());
    }
    let mut dots: Vec<char> = Vec::new();
    dots.push('.');
    dots.push('.');
    proof {
        assert(dots@ =~= seq!['.', '.']);
    }
    if contains(&chars, &dots) {
        return Err("Object key cannot contain '..'".to_string());
    }
    Ok(())
}

/// The position of the last `c` in `s`, or -1 where `s` holds none.
pub open spec fn last_position(s: Seq<char>, c: char) -> int
    decreases s.len(),
{
    if s.len() == 0 {
        -1
    } else if s.last() == c {
        s.len() - 1
    } else {
        last_position(s.drop_last(), c)
    }
}

/// Whether a key ends in what names nothing: a slash, or a single dot that
/// stands behind a slash or is the whole key.
pub open spec fn ends_idly(key: Seq<char>) -> bool {
    key.len() > 0 && (key.last() == '/' || (key.last() == '.' && (key.len() == 1 || key[key.len()
        - 2] == '/')))
}

/// The key without the slashes and the single dots that end it.
pub open spec fn trimmed_key(key: Seq<char>) -> Seq<char>
    decreases key.len(),
{
    if ends_idly(key) {
        trimmed_key(key.drop_last())
    } else {
        key
    }
}

/// The file name of a key: the last of its parts between slashes that is
/// neither empty nor a single dot. Where there is no such part, or where it
/// is `..`, the key has no file name, which is written as the empty text.
pub open spec fn file_name_of(key: Seq<char>) -> Seq<char> {
    let trimmed = trimmed_key(key);
    let name = trimmed.skip(last_position(trimmed, '/') + 1);
    if name == ".."@ {
        Seq::<char>::empty()
    } else {
        name
    }
}

/// The suffix of a key: what follows the last dot of its file name. A file
/// name without a dot, or whose only dot is its first character, has none,
/// which is written as the empty text.
pub open spec fn suffix_of(key: Seq<char>) -> Seq<char> {
    let name = file_name_of(key);
    let dot = last_position(name, '.');
    if dot <= 0 {
        Seq::<char>::empty()
    } else {
        name.skip(dot + 1)
    }
}

/// The content type that a lower-case suffix stands for.
pub open spec fn mime_for_suffix(suffix: Seq<char>) -> Seq<char> {
    if suffix == "html"@ || suffix == "htm"@ {
        "text/html"@
    } else if suffix == "css"@ {
        "text/css"@
    } else if suffix == "js"@ {
        "application/javascript"@
    } else if suffix == "json"@ {
        "application/json"@
    } else if suffix == "xml"@ {
        "application/xml"@
    } else if suffix == "txt"@ {
        "text/plain"@
    } else if suffix == "pdf"@ {
        "application/pdf"@
    } else if suffix == "jpg"@ || suffix == "jpeg"@ {
        "image/jpeg"@
    } else if suffix == "png"@ {
        "image/png"@
    } else if suffix == "gif"@ {
        "image/gif"@
    } else if suffix == "svg"@ {
        "image/svg+xml"@
    } else if suffix == "ico"@ {
        "image/x-icon"@
    } else if suffix == "zip"@ {
        "application/zip"@
    } else if suffix == "tar"@ {
        "application/x-tar"@
    } else if suffix == "gz"@ {
        "application/gzip"@
    } else if suffix == "mp4"@ {
        "video/mp4"@
    } else if suffix == "mp3"@ {
        "audio/mpeg"@
    } else if suffix == "wav"@ {
        "audio/wav"@
    } else {
        "application/octet-stream"@
    }
}

/// The content type inferred from a key: that of its suffix, whatever the
/// case of its letters.
pub open spec fn mime_of(key: Seq<char>) -> Seq<char> {
    mime_for_suffix(lower_text(suffix_of(key)))
}

/// A slash or a dot stands last in a text exactly where it stands last in
/// the lower-case form of the text.
pub proof fn lemma_last_position_lower(s: Seq<char>, c: char)
    requires
        c == '/' || c == '.',
    ensures
        last_position(lower_text(s), c) == last_position(s, c),
    decreases s.len(),
{
    if s.len() > 0 {
        assert(lower_text(s).drop_last() =~= lower_text(s.drop_last()));
        assert(lower_text(s).last() == lower_char(s.last()));
        lemma_last_position_lower(s.drop_last(), c);
    }
}

/// Trimming a key and writing it in lower case can be done in either order.
pub proof fn lemma_trimmed_key_lower(key: Seq<char>)
    ensures
        trimmed_key(lower_text(key)) == lower_text(trimmed_key(key)),
    decreases key.len(),
{
    let lowered = lower_text(key);
    if key.len() > 0 {
        assert(lowered.last() == lower_char(key.last()));
        if key.len() > 1 {
            assert(lowered[key.len() - 2] == lower_char(key[key.len() - 2]));
        }
        assert(ends_idly(lowered) == ends_idly(key));
        if ends_idly(key) {
            assert(lowered.drop_last() =~= lower_text(key.drop_last()));
            lemma_trimmed_key_lower(key.drop_last());
        }
    }
}

/// The content type inferred from a key does not depend on the case of its
/// letters.
pub proof fn law_mime_type_ignores_case(key: Seq<char>)
    ensures
        mime_of(lower_text(key)) == mime_of(key),
{
    let trimmed = trimmed_key(key);
    let slash = last_position(trimmed, '/');
    let name = trimmed.skip(slash + 1);
    lemma_trimmed_key_lower(key);
    lemma_last_position_lower(trimmed, '/');
    lemma_last_position_bounds(trimmed, '/');
    assert(lower_text(trimmed).skip(slash + 1) =~= lower_text(name));
    assert(".."@.len() == 2 && ".."@[0] == '.' && ".."@[1] == '.') by {
        reveal_strlit("..");
    }
    if name == ".."@ {
        assert(lower_text(name) =~= ".."@);
    }
    if lower_text(name) == ".."@ {
        assert(lower_text(name)[0] == lower_char(name[0]));
        assert(lower_text(name)[1] == lower_char(name[1]));
        assert(name =~= ".."@);
    }
    let file = file_name_of(key);
    assert(file_name_of(lower_text(key)) =~= lower_text(file));
    let dot = last_position(file, '.');
    lemma_last_position_lower(file, '.');
    lemma_last_position_bounds(file, '.');
    assert(suffix_of(lower_text(key)) =~= lower_text(suffix_of(key)));
    assert(lower_text(lower_text(suffix_of(key))) =~= lower_text(suffix_of(key)));
}

/// The last position of a character lies in the text, or is -1.
pub proof fn lemma_last_position_bounds(s: Seq<char>, c: char)
    ensures
        -1 <= last_position(s, c) < s.len(),
    decreases s.len(),
{
    if s.len() > 0 && s.last() != c {
        lemma_last_position_bounds(s.drop_last(), c);
    }
}

fn last_index_of(s: &Vec<char>, from: usize, c: char) -> (r: Option<usize>)
    requires
        from <= s.len(),
    ensures
        match r {
            Some(i) => from <= i < s.len() && last_position(s@.skip(from as int), c) == i - from,
            None => last_position(s@.skip(from as int), c) == -1,
        },
{
    let ghost tail = s@.skip(from as int);
    let mut i: usize = s.len();
    proof {
        assert(tail.take(tail.len() as int) == tail);
    }
    while i > from
        invariant
            from <= i <= s.len(),
            tail == s@.skip(from as int),
            last_position(tail, c) == last_position(tail.take(i - from), c),
        decreases i,
    {
        i -= 1;
        proof {
            let shorter = tail.take(i - from + 1);
            assert(shorter.last() == s@[i as int]);
            assert(shorter.drop_last() == tail.take(i - from));
        }
        if s[i] == c {
            return Some(i);
        }
    }
    proof {
        assert(tail.take(0).len() == 0);
    }
    None
}

/// The content type for a suffix already in lower case.
pub fn mime_type_for_suffix(suffix: &str) -> (r: String)
    ensures
        r@ == mime_for_suffix(suffix@),
{
    if same_text(suffix, "html") || same_text(suffix, "htm") {
        "text/html".to_string()
    } else if same_text(suffix, "css") {
        "text/css".to_string()
    } else if same_text(suffix, "js") {
        "application/javascript".to_string()
    } else if same_text(suffix, "json") {
        "application/json".to_string()
    } else if same_text(suffix, "xml") {
        "application/xml".to_string()
    } else if same_text(suffix, "txt") {
        "text/plain".to_string()
    } else if same_text(suffix, "pdf") {
        "application/pdf".to_string()
    } else if same_text(suffix, "jpg") || same_text(suffix, "jpeg") {
        "image/jpeg".to_string()
    } else if same_text(suffix, "png") {
        "image/png".to_string()
    } else if same_text(suffix, "gif") {
        "image/gif".to_string()
    } else if same_text(suffix, "svg") {
        "image/svg+xml".to_string()
    } else if same_text(suffix, "ico") {
        "image/x-icon".to_string()
    } else if same_text(suffix, "zip") {
        "application/zip".to_string()
    } else if same_text(suffix, "tar") {
        "application/x-tar".to_string()
    } else if same_text(suffix, "gz") {
        "application/gzip".to_string()
    } else if same_text(suffix, "mp4") {
        "video/mp4".to_string()
    } else if same_text(suffix, "mp3") {
        "audio/mpeg".to_string()
    } else if same_text(suffix, "wav") {
        "audio/wav".to_string()
    } else {
        "application/octet-stream".to_string()
    }
}

fn ends_in_nothing(chars: &Vec<char>) -> (r: bool)
    ensures
        r == ends_idly(chars@),
{
    let n = chars.len();
    if n == 0 {
        false
    } else if chars[n - 1] == '/' {
        true
    } else if chars[n - 1] == '.' {
        n == 1 || chars[n - 2] == '/'
    } else {
        false
    }
}

/// The content type inferred from the suffix of `filename`.
pub fn get_mime_type(filename: &str) -> (r: String)
    ensures
        r@ == mime_of(filename@),
{
    let mut chars = chars_of(filename);
    let mut idle = ends_in_nothing(&chars);
    while idle
        invariant
            idle == ends_idly(chars@),
            trimmed_key(chars@) == trimmed_key(filename@),
        decreases chars.len(),
    {
        let ghost before = chars@;
        chars.pop();
        proof {
            assert(chars@ =~= before.drop_last());
        }
        idle = ends_in_nothing(&chars);
    }
    let start: usize = match last_index_of(&chars, 0, '/') {
        Some(i) => i + 1,
        None => 0,
    };
    let ghost name = chars@.skip(start as int);
    proof {
        assert(chars@.skip(0) == chars@);
        assert(trimmed_key(filename@) == chars@);
        reveal_strlit("..");
    }
    let parent = chars.len() - start == 2 && chars[start] == '.' && chars[start + 1] == '.';
    proof {
        assert(".."@.len() == 2 && ".."@[0] == '.' && ".."@[1] == '.');
        if parent {
            assert(name.len() == 2 && name[0] == '.' && name[1] == '.');
            assert(name =~= ".."@);
        } else if name == ".."@ {
            assert(name.len() == 2);
            assert(name[0] == chars@[start as int] && name[1] == chars@[start + 1]);
        }
        assert(parent == (name == ".."@));
    }
    if parent {
        proof {
            reveal_strlit("");
            assert(file_name_of(filename@) == Seq::<char>::empty());
            assert(suffix_of(filename@) == Seq::<char>::empty());
            assert(lower_text(Seq::<char>::empty()) =~= ""@);
        }
        return mime_type_for_suffix("");
    }
    proof {
        assert(file_name_of(filename@) == name);
    }
    let suffix = match last_index_of(&chars, start, '.') {
        Some(dot) => {
            if dot > start {
                proof {
                    assert(chars@.skip(start as int).skip(dot - start + 1) =~= chars@.subrange(
                        dot + 1,
                        chars.len() as int,
                    ));
                }
                text_of_range(&chars, dot + 1, chars.len())
            } else {
                String::new()
            }
        },
        None => String::new(),
    };
    let lowered = to_lower(suffix.as_str());
    mime_type_for_suffix(lowered.as_str())
}

/// The forms an entity tag may have: a weak tag `W/"..."`, a quoted tag
/// `"..."`, or a text without any double quote or space. The empty text has
/// none of them.
pub open spec fn valid_etag_format(etag: Seq<char>) -> bool {
    &&& etag.len() > 0
    &&& {
        ||| (seq!['W', '/', '"'].is_prefix_of(etag) && etag.last() == '"')
        ||| (etag[0] == '"' && etag.last() == '"')
        ||| (!etag.contains('"') && !etag.contains(' '))
    }
}

/// Whether `etag` has one of the accepted forms.
pub fn is_valid_etag_format(etag: &str) -> (r: bool)
    ensures
        r == valid_etag_format(etag@),
{
    let chars = chars_of(etag);
    let n = chars.len();
    if n == 0 {
        return false;
    }
    let mut weak: Vec<char> = Vec::new();
    weak.push('W');
    weak.push('/');
    weak.push('"');
    proof {
        assert(weak@ =~= seq!['W', '/', '"']);
    }
    if starts_with(&chars, &weak) && chars[n - 1] == '"' {
        return true;
    }
    if chars[0] == '"' && chars[n - 1] == '"' {
        return true;
    }
    if !contains_char(&chars, '"') && !contains_char(&chars, ' ') {
        return true;
    }
    false
}

} // verus!
