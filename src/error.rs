use vstd::prelude::*;

verus! {

/// The ways an operation of the store can fail.
#[derive(Debug, PartialEq, Eq)]
pub enum StoreError {
    /// Decomposition was given a value that is not an object.
    NotAnObject,
    /// A segment of a tree path has no matching child under its parent.
    PathNotFound,
    /// A search was given an empty key or an empty value, but not both.
    ValidationError,
    /// The persistence substrate failed; the text describes its cause.
    Storage(String),
}

impl StoreError {
    /// The textual description handed back to callers of the request layer.
    pub fn describe(&self) -> (r: String)
        ensures
            match self {
                StoreError::NotAnObject => r@ == "document is not a JSON object"@,
                StoreError::PathNotFound => r@ == "path not found"@,
                StoreError::ValidationError => r@ == "search key and value must both be given"@,
                StoreError::Storage(cause) => r@ == cause@,
            },
    {
        proof {
            reveal_strlit("document is not a JSON object");
            reveal_strlit("path not found");
            reveal_strlit("search key and value must both be given");
        }
        match self {
            StoreError::NotAnObject => String::from_str("document is not a JSON object"),
            StoreError::PathNotFound => String::from_str("path not found"),
            StoreError::ValidationError => String::from_str("search key and value must both be given"),
            StoreError::Storage(cause) => cause.clone(),
        }
    }
}

} // verus!
