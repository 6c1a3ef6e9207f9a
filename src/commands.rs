use vstd::prelude::*;

use crate::token::TokenType;

verus! {

/// The fixed table of backslash commands that stand for an operator.
pub open spec fn command_operator(name: Seq<char>) -> Option<TokenType> {
    if name == seq!['t', 'i', 'm', 'e', 's'] {
        Some(TokenType::Mul)
    } else if name == seq!['d', 'i', 'v'] {
        Some(TokenType::Div)
    } else {
        None
    }
}

/// Looks `name` up in the command table.
pub fn lookup_command(name: &String) -> (r: Option<TokenType>)
    ensures
        r == command_operator(name@),
{
    proof {
        reveal_strlit("times");
        reveal_strlit("div");
    }
    if *name == "times".to_owned() {
        assert("times"@ =~= seq!['t', 'i', 'm', 'e', 's']);
        Some(TokenType::Mul)
    } else if *name == "div".to_owned() {
        assert("div"@ =~= seq!['d', 'i', 'v']);
        Some(TokenType::Div)
    } else {
        assert("times"@ =~= seq!['t', 'i', 'm', 'e', 's']);
        assert("div"@ =~= seq!['d', 'i', 'v']);
        None
    }
}

} // verus!
