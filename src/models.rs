use vstd::prelude::*;
use crate::json::Json;

verus! {

/// A document submitted under a URI.
pub struct JsonData {
    pub uri: String,
    pub data: Json,
}

/// A URI with each `/` replaced by `_`.
pub open spec fn slashes_replaced(uri: Seq<char>) -> Seq<char> {
    Seq::new(
        uri.len(),
        |i: int|
            if uri[i] == '/' {
                '_'
            } else {
                uri[i]
            },
    )
}

/// The name of the structure that documents submitted under `uri` go to.
pub fn table_name_for_uri(uri: &String) -> (r: String)
    ensures
        r@ == slashes_replaced(uri@),
{
    let u = uri.as_str();
    let len = u.unicode_len();
    let mut out = String::new();
    let mut start: usize = 0;
    let mut i: usize = 0;
    proof {
        reveal_strlit("_");
    }
    assert(out@ =~= slashes_replaced(uri@.take(0)));
    while i < len
        invariant
            start <= i <= len,
            len == uri@.len(),
            u@ == uri@,
            "_"@ == seq!['_'],
            out@ == slashes_replaced(uri@.take(start as int)),
            forall|k: int| start <= k < i ==> uri@[k] != '/',
        decreases len - i,
    {
        if u.get_char(i) == '/' {
            let part = u.substring_char(start, i);
            out.append(part);
            out.append("_");
            assert(out@ =~= slashes_replaced(uri@.take(i + 1)));
            start = i + 1;
        }
        i += 1;
    }
    let part = u.substring_char(start, len);
    out.append(part);
    assert(uri@.take(len as int) =~= uri@);
    assert(out@ =~= slashes_replaced(uri@));
    out
}

} // verus!
