//! The layout of the directory tree: where a bucket's description, an
//! object's metadata and an object's bytes are kept, and the identifier that
//! names an object's files.

use crate::text::concat;
use crate::utils::{sha256_hash, sha256_hex};
use vstd::prelude::*;
use vstd::string::*;
use vstd::utf8::encode_utf8;

verus! {

/// `parent` and `child` joined by a slash.
pub open spec fn join(parent: Seq<char>, child: Seq<char>) -> Seq<char> {
    parent + seq!['/'] + child
}

/// The identifier of the object `key` of `bucket`: the SHA-256 digest of the
/// bucket's name, a colon and the key, in hexadecimal digits.
pub open spec fn object_id_of(bucket: Seq<char>, key: Seq<char>) -> Seq<char> {
    sha256_hex(encode_utf8(bucket + seq![':'] + key))
}

/// The characters `from..to` of an identifier, as far as it has them.
pub open spec fn shard(id: Seq<char>, from: int, to: int) -> Seq<char> {
    let n = id.len() as int;
    id.subrange(if from < n { from } else { n }, if to < n { to } else { n })
}

/// The directory of a bucket.
pub open spec fn bucket_dir_of(root: Seq<char>, bucket: Seq<char>) -> Seq<char> {
    join(root, bucket)
}

/// The reserved directory of a bucket, which holds all metadata.
pub open spec fn meta_dir_of(root: Seq<char>, bucket: Seq<char>) -> Seq<char> {
    join(bucket_dir_of(root, bucket), ".sevino.meta"@)
}

/// The file that describes a bucket.
pub open spec fn bucket_metadata_path_of(root: Seq<char>, bucket: Seq<char>) -> Seq<char> {
    join(meta_dir_of(root, bucket), "bucket.json"@)
}

/// The name of the metadata file of the object `id`.
pub open spec fn sidecar_name_of(id: Seq<char>) -> Seq<char> {
    id + ".json"@
}

/// The metadata file of the object `id`.
pub open spec fn object_metadata_path_of(
    root: Seq<char>,
    bucket: Seq<char>,
    id: Seq<char>,
) -> Seq<char> {
    join(join(meta_dir_of(root, bucket), "objects"@), sidecar_name_of(id))
}

/// The file that holds the bytes of the object `id`, below two levels of
/// directories named by the identifier's first four and next two characters.
pub open spec fn object_data_path_of(
    root: Seq<char>,
    bucket: Seq<char>,
    id: Seq<char>,
) -> Seq<char> {
    join(join(join(bucket_dir_of(root, bucket), shard(id, 0, 4)), shard(id, 4, 6)), id)
}

/// Joins `parent` and `child` by a slash.
pub fn join_path(parent: &str, child: &str) -> (r: String)
    ensures
        r@ == join(parent@, child@),
{
    let mut out = parent.to_owned();
    out.push('/');
    out.append(child);
    proof {
        assert(out@ =~= join(parent@, child@));
    }
    out
}

/// The identifier under which the version `version` of the object `key` is
/// stored: the identifier of the object, an underscore, and the version.
pub open spec fn versioned_id_of(bucket: Seq<char>, key: Seq<char>, version: Seq<char>) -> Seq<
    char,
> {
    object_id_of(bucket, key) + seq!['_'] + version
}

/// The identifier under which the version `version_id` of the object `key`
/// is stored.
pub fn versioned_object_id(bucket_name: &str, key: &str, version_id: &str) -> (r: String)
    ensures
        r@ == versioned_id_of(bucket_name@, key@, version_id@),
{
    let mut object_id = generate_object_id(bucket_name, key);
    object_id.push('_');
    object_id.append(version_id);
    proof {
        assert(object_id@ =~= versioned_id_of(bucket_name@, key@, version_id@));
    }
    object_id
}

/// The identifier of the object `key` of `bucket`.
pub fn generate_object_id(bucket_name: &str, key: &str) -> (r: String)
    ensures
        r@ == object_id_of(bucket_name@, key@),
        r@.len() == 64,
{
    let mut combined = bucket_name.to_owned();
    combined.push(':');
    combined.append(key);
    proof {
        assert(combined@ =~= bucket_name@ + seq![':'] + key@);
    }
    sha256_hash(combined.as_str().as_bytes())
}

/// The directory of a bucket.
pub fn bucket_dir(root: &str, bucket_name: &str) -> (r: String)
    ensures
        r@ == bucket_dir_of(root@, bucket_name@),
{
    join_path(root, bucket_name)
}

/// The file that describes a bucket.
pub fn bucket_metadata_path(root: &str, bucket_name: &str) -> (r: String)
    ensures
        r@ == bucket_metadata_path_of(root@, bucket_name@),
{
    let dir = bucket_dir(root, bucket_name);
    let meta = join_path(dir.as_str(), ".sevino.meta");
    join_path(meta.as_str(), "bucket.json")
}

/// The name of the metadata file of the object `object_id`.
pub fn sidecar_name(object_id: &str) -> (r: String)
    ensures
        r@ == sidecar_name_of(object_id@),
{
    concat(object_id, ".json")
}

/// The metadata file of the object `object_id`.
pub fn object_metadata_path(root: &str, bucket_name: &str, object_id: &str) -> (r: String)
    ensures
        r@ == object_metadata_path_of(root@, bucket_name@, object_id@),
{
    let dir = bucket_dir(root, bucket_name);
    let meta = join_path(dir.as_str(), ".sevino.meta");
    let objects = join_path(meta.as_str(), "objects");
    let name = sidecar_name(object_id);
    join_path(objects.as_str(), name.as_str())
}

/// The file that holds the bytes of the object `object_id`.
pub fn object_data_path(root: &str, bucket_name: &str, object_id: &str) -> (r: String)
    ensures
        r@ == object_data_path_of(root@, bucket_name@, object_id@),
{
    let n = object_id.unicode_len();
    let a: usize = if 4 < n { 4 } else { n };
    let b: usize = if 6 < n { 6 } else { n };
    let first = object_id.substring_char(0, a);
    let second = object_id.substring_char(a, b);
    let dir = bucket_dir(root, bucket_name);
    let level_one = join_path(dir.as_str(), first);
    let level_two = join_path(level_one.as_str(), second);
    join_path(level_two.as_str(), object_id)
}

} // verus!
