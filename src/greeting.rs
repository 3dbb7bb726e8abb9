use vstd::prelude::*;

verus! {

/// Which of the two greeting texts the route answers with.
#[derive(Clone, Copy, Debug, PartialEq, Eq, Structural)]
pub enum GreetingStyle {
    /// `Hello {id}`
    Plain,
    /// `Hello id = {id}`
    Labelled,
}

/// The body the person route answers with, for an identity taken as an opaque string.
pub open spec fn greeting_text(style: GreetingStyle, username: Seq<char>) -> Seq<char> {
    match style {
        GreetingStyle::Plain => "Hello "@ + username,
        GreetingStyle::Labelled => "Hello id = "@ + username,
    }
}

/// Builds the greeting of the given style.
pub fn greeting(style: GreetingStyle, username: &str) -> (r: String)
    ensures
        r@ == greeting_text(style, username@),
{
    let mut s = match style {
        GreetingStyle::Plain => String::from_str("Hello "),
        GreetingStyle::Labelled => String::from_str("Hello id = "),
    };
    s.append(username);
    s
}

/// Builds `Hello {username}`.
pub fn greet_user(username: &str) -> (r: String)
    ensures
        r@ == greeting_text(GreetingStyle::Plain, username@),
{
    greeting(GreetingStyle::Plain, username)
}

} // verus!
