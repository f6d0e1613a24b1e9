//! Token classification for the expression-entry front end.
//!
//! The numeric evaluation itself works on floating point and therefore lives
//! with the front end; only the token-level rules are kept here, where their
//! behaviour can be stated exactly.

use vstd::prelude::*;

verus! {

/// The precedence that `priority` assigns to a token, as a spec-level
/// function of the token's characters.
pub open spec fn spec_priority(s: Seq<char>) -> i32 {
    if s == seq!['+'] || s == seq!['-'] {
        1
    } else if s == seq!['*'] || s == seq!['/'] {
        2
    } else {
        0
    }
}

/// Whether the token is one of the four arithmetic operators.
pub fn is_operator(token: &str) -> (r: bool)
    ensures
        r == (token@ == seq!['+'] || token@ == seq!['-'] || token@ == seq!['*'] || token@
            == seq!['/']),
{
    if token.unicode_len() == 1 {
        let c = token.get_char(0);
        let r = c == '+' || c == '-' || c == '*' || c == '/';
        proof {
            if r {
                assert(token@ =~= seq![c]);
            }
        }
        r
    } else {
        false
    }
}

/// Binding strength of an operator token: multiplicative above additive,
/// zero for anything that is not an operator.
pub fn priority(operator: &str) -> (r: i32)
    ensures
        r == spec_priority(operator@),
{
    if operator.unicode_len() == 1 {
        let c = operator.get_char(0);
        proof {
            assert(operator@ =~= seq![c]);
        }
        if c == '+' || c == '-' {
            1
        } else if c == '*' || c == '/' {
            2
        } else {
            0
        }
    } else {
        proof {
            assert(operator@ != seq!['+'] && operator@ != seq!['-'] && operator@ != seq!['*']
                && operator@ != seq!['/']) by {
                assert(seq!['+'].len() == 1);
                assert(seq!['-'].len() == 1);
                assert(seq!['*'].len() == 1);
                assert(seq!['/'].len() == 1);
            }
        }
        0
    }
}

} // verus!
