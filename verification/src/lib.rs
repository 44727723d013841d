//! Decode URL-encoded key/value pairs in PHP-style bracket notation (for
//! example `address[city]=Foo&user_ids[]=1&user_ids[]=2`) into a structured
//! tree of objects, arrays and scalars, and encode such a tree back into the
//! same wire format.

pub mod builder;
pub mod codec;
pub mod flatten;
pub mod laws;
pub mod parse;
pub mod value;

pub use builder::apply_pair;
pub use builder::decode_pairs;
pub use flatten::collect_keys;
pub use flatten::encode_pairs;
pub use parse::Segment;
pub use parse::parse_key;
pub use value::QsError;
pub use value::QsValue;
pub use value::Tree;

use vstd::prelude::*;

use builder::decode_spec;
use codec::form_decoded;
use codec::form_encoded;
use codec::url_decode_pairs;
use codec::url_encode_pairs;
use flatten::flatten_spec;
use vstd::string::StringSliceAdditionalSpecFns;

verus! {

/// Decoding a whole byte string: what `url::form_urlencoded::parse` yields
/// on it, folded into a tree in input order.
pub open spec fn decode_bytes_spec(bytes: Seq<u8>) -> Option<Tree> {
    decode_spec(form_decoded(bytes))
}

/// Encoding a whole tree: its flattened pair list, serialized by
/// `url::form_urlencoded::Serializer`.
pub open spec fn encode_tree_spec(t: Tree) -> Seq<char> {
    form_encoded(flatten_spec(t, Seq::empty()))
}

/// Decode a byte string in bracket-noted form syntax into a tree. Fails
/// with the parse error exactly when some decoded key is malformed or some
/// key path meets an incompatible shape built by an earlier pair.
pub fn from_slice(bytes: &[u8]) -> (r: Result<QsValue, QsError>)
    ensures
        match r {
            Ok(t) => decode_bytes_spec(bytes@) == Some(t@),
            Err(e) => decode_bytes_spec(bytes@) is None && e == QsError::Parse,
        },
{
    let pairs = url_decode_pairs(bytes);
    decode_pairs(&pairs)
}

/// Decode a byte string in bracket-noted form syntax into a tree.
pub fn from_bytes(bytes: &[u8]) -> (r: Result<QsValue, QsError>)
    ensures
        match r {
            Ok(t) => decode_bytes_spec(bytes@) == Some(t@),
            Err(e) => decode_bytes_spec(bytes@) is None && e == QsError::Parse,
        },
{
    from_slice(bytes)
}

/// Decode a string in bracket-noted form syntax into a tree: `from_slice`
/// over the string's UTF-8 bytes.
pub fn from_str(s: &str) -> (r: Result<QsValue, QsError>)
    ensures
        match r {
            Ok(t) => decode_bytes_spec(s.spec_bytes()) == Some(t@),
            Err(e) => decode_bytes_spec(s.spec_bytes()) is None && e == QsError::Parse,
        },
{
    from_slice(s.as_bytes())
}

/// Encode a tree into a single bracket-noted form string: flatten it into
/// ordered pairs, then serialize them. Encoding never fails; the `Result`
/// mirrors the decode pipeline's shape.
pub fn to_string(v: &QsValue) -> (r: Result<String, QsError>)
    ensures
        r is Ok,
        r->Ok_0@ == encode_tree_spec(v@),
{
    let pairs = encode_pairs(v);
    Ok(url_encode_pairs(&pairs))
}

} // verus!
