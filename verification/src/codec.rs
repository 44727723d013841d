use vstd::prelude::*;

use crate::value::pairs_view;

verus! {

/// What `url::form_urlencoded::parse` yields on a byte string: the ordered
/// (name, value) pairs, percent-decoded and with `+` read as a space. A
/// pure function of the bytes alone.
pub uninterp spec fn form_decoded(bytes: Seq<u8>) -> Seq<(Seq<char>, Seq<char>)>;

/// What `url::form_urlencoded::Serializer` produces from an ordered pair
/// list: the `&`-joined, `=`-separated, percent-encoded text. A pure
/// function of the pairs alone.
pub uninterp spec fn form_encoded(pairs: Seq<(Seq<char>, Seq<char>)>) -> Seq<char>;

/// Relies on url::form_urlencoded::parse: it splits a byte string in
/// `application/x-www-form-urlencoded` syntax into (name, value) pairs in
/// input order, percent-decoding each side.
#[verifier::external_body]
pub(crate) fn url_decode_pairs(bytes: &[u8]) -> (r: Vec<(String, String)>)
    ensures
        pairs_view(r@) == form_decoded(bytes@),
{
    url::form_urlencoded::parse(bytes).into_owned().collect()
}

/// Relies on url::form_urlencoded::Serializer: it percent-encodes each name
/// and value and joins the pairs with `=` and `&`.
#[verifier::external_body]
pub(crate) fn url_encode_pairs(pairs: &Vec<(String, String)>) -> (r: String)
    ensures
        r@ == form_encoded(pairs_view(pairs@)),
{
    url::form_urlencoded::Serializer::new(String::new()).extend_pairs(pairs).finish()
}

} // verus!
