//! What the service says to its callers and reads from their requests, as far
//! as it is a matter of plain values: the envelope of an answer, the key and
//! the metadata of an uploaded part, the filters that a query names.

use crate::dict::Dict;
use crate::services::queries::pairs_view;
use crate::text::{chars_of, decimal, decimal_text, starts_with, text_of_range};
use vstd::prelude::*;
use vstd::string::*;

verus! {

/// The envelope of an answer: either the data of a success, or the message
/// of a failure.
#[derive(Debug)]
pub struct ApiResponse<T> {
    pub success: bool,
    pub data: Option<T>,
    pub error: Option<String>,
}

impl<T> ApiResponse<T> {
    /// The envelope of a success.
    pub fn success(data: T) -> (r: Self)
        ensures
            r.success,
            r.data == Some(data),
            r.error is None,
    {
        ApiResponse { success: true, data: Some(data), error: None }
    }

    /// The envelope of a failure.
    pub fn error(message: String) -> (r: Self)
        ensures
            !r.success,
            r.data is None,
            r.error == Some(message),
    {
        ApiResponse { success: false, data: None, error: Some(message) }
    }
}

/// The word for the policy that applies where a request names none.
pub fn default_deduplication_mode() -> (r: Option<String>)
    ensures
        r.deep_view() == Some("allow"@),
{
    Some("allow".to_string())
}

/// The key under which a part of an upload in parts is stored.
pub open spec fn part_key_of(key: Seq<char>, part_number: u32) -> Seq<char> {
    key + ".part."@ + decimal(part_number as nat)
}

/// The key under which a part of an upload in parts is stored.
pub fn multipart_part_key(key: &str, part_number: u32) -> (r: String)
    ensures
        r@ == part_key_of(key@, part_number),
{
    let mut out = key.to_owned();
    out.append(".part.");
    let number = decimal_text(part_number as u64);
    out.append(number.as_str());
    out
}

/// The metadata that tells a part of an upload in parts.
pub open spec fn part_metadata_of(upload_id: Seq<char>, part_number: u32, total_parts: u32) -> Map<
    Seq<char>,
    Seq<char>,
> {
    Map::<Seq<char>, Seq<char>>::empty().insert("multipart_upload_id"@, upload_id).insert(
        "part_number"@,
        decimal(part_number as nat),
    ).insert("total_parts"@, decimal(total_parts as nat))
}

/// The metadata that tells a part of an upload in parts.
pub fn multipart_user_metadata(upload_id: &str, part_number: u32, total_parts: u32) -> (r: Dict<
    String,
>)
    ensures
        r@ == part_metadata_of(upload_id@, part_number, total_parts),
{
    let mut out: Dict<String> = Dict::new();
    out.insert("multipart_upload_id".to_string(), upload_id.to_owned());
    out.insert("part_number".to_string(), decimal_text(part_number as u64));
    out.insert("total_parts".to_string(), decimal_text(total_parts as u64));
    out
}

/// The filters on the user's metadata that the pairs of a query name: each
/// pair whose name begins with `custom_`, in order, with that beginning
/// taken off its name.
pub open spec fn custom_filters_of(pairs: Seq<(Seq<char>, Seq<char>)>) -> Seq<
    (Seq<char>, Seq<char>),
>
    decreases pairs.len(),
{
    if pairs.len() == 0 {
        Seq::empty()
    } else {
        let before = custom_filters_of(pairs.drop_last());
        let pair = pairs.last();
        if "custom_"@.is_prefix_of(pair.0) {
            before.push((pair.0.skip("custom_"@.len() as int), pair.1))
        } else {
            before
        }
    }
}

/// The filters on the user's metadata that the pairs of a query name.
pub fn custom_filters_from(pairs: &Vec<(String, String)>) -> (r: Vec<(String, String)>)
    ensures
        pairs_view(r@) == custom_filters_of(pairs_view(pairs@)),
{
    let ghost all = pairs_view(pairs@);
    let beginning = chars_of("custom_");
    let mut out: Vec<(String, String)> = Vec::new();
    let mut i: usize = 0;
    proof {
        assert(all.take(0).len() == 0);
        assert(pairs_view(out@) =~= Seq::<(Seq<char>, Seq<char>)>::empty());
    }
    while i < pairs.len()
        invariant
            i <= pairs.len(),
            all == pairs_view(pairs@),
            beginning@ == "custom_"@,
            pairs_view(out@) == custom_filters_of(all.take(i as int)),
        decreases pairs.len() - i,
    {
        proof {
            assert(all.take(i + 1).drop_last() =~= all.take(i as int));
            assert(all.take(i + 1).last() == (pairs[i as int].0@, pairs[i as int].1@));
        }
        let name = chars_of(pairs[i].0.as_str());
        if starts_with(&name, &beginning) {
            let ghost before = pairs_view(out@);
            let stripped = text_of_range(&name, beginning.len(), name.len());
            proof {
                assert(name@.subrange(beginning.len() as int, name.len() as int) =~= name@.skip(
                    "custom_"@.len() as int,
                ));
            }
            out.push((stripped, pairs[i].1.clone()));
            proof {
                assert(pairs_view(out@) =~= before.push(
                    (name@.skip("custom_"@.len() as int), pairs[i as int].1@),
                ));
            }
        }
        i += 1;
    }
    proof {
        assert(all.take(all.len() as int) =~= all);
    }
    out
}

} // verus!
