use vstd::prelude::*;

verus! {

/// No token exists under the requested id.
#[derive(Debug, Clone, Copy, PartialEq, Eq, Structural)]
pub struct TokenNotFound {}

/// An approval that the operation relies on is not set.
#[derive(Debug)]
pub struct TokenNotApproved {
    message: String,
}

impl TokenNotApproved {
    /// The text that explains what is missing.
    pub closed spec fn text(&self) -> Seq<char> {
        self.message@
    }

    pub fn new(message: &str) -> (r: Self)
        ensures
            r.text() == message@,
    {
        TokenNotApproved { message: message.to_owned() }
    }

    pub fn message(&self) -> (r: &str)
        ensures
            r@ == self.text(),
    {
        self.message.as_str()
    }
}

/// The value of `option`, or `TokenNotFound` when there is none.
pub fn expect_token_found<T>(option: Option<T>) -> (r: Result<T, TokenNotFound>)
    ensures
        match option {
            Some(t) => r == Ok::<T, TokenNotFound>(t),
            None => r == Err::<T, TokenNotFound>(TokenNotFound {  }),
        },
{
    match option {
        Some(t) => Ok(t),
        None => Err(TokenNotFound {  }),
    }
}

/// The value of `option`, or `TokenNotApproved` saying that the next approval
/// id must be set when there is none.
pub fn expect_approval<T>(option: Option<T>) -> (r: Result<T, TokenNotApproved>)
    ensures
        match option {
            Some(t) => r is Ok && r->Ok_0 == t,
            None => r is Err && r->Err_0.text() == "next_approval_by_id must be set for approval ext"@,
        },
{
    match option {
        Some(t) => Ok(t),
        None => {
            let e = TokenNotApproved::new("next_approval_by_id must be set for approval ext");
            proof {
                reveal_strlit("next_approval_by_id must be set for approval ext");
            }
            Err(e)
        },
    }
}

} // verus!
