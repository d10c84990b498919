//! Bracket matching: finds the closing parenthesis that balances an opening
//! one, so a caller can work on the span between the two.

use vstd::prelude::*;

verus! {

pub const CH_LPAREN: u8 = 40;

pub const CH_RPAREN: u8 = 41;

/// The position at or after `i` where the running parenthesis depth, starting
/// from `depth`, first reaches zero; `None` when it never does.
pub open spec fn close_at(s: Seq<u8>, i: int, depth: int) -> Option<int>
    decreases s.len() - i,
{
    if 0 <= i && i < s.len() {
        let next = if s[i] == CH_LPAREN {
            depth + 1
        } else if s[i] == CH_RPAREN {
            depth - 1
        } else {
            depth
        };
        if next == 0 {
            Some(i)
        } else {
            close_at(s, i + 1, next)
        }
    } else {
        None
    }
}

/// Finds the closing parenthesis that matches an opening one at `pos`:
/// `Some(close)` leaves the span strictly inside the pair at
/// `pos + 1 .. close` and the rest of the input at `close + 1 ..`. `None`
/// when `pos` holds no opening parenthesis or the input ends before the
/// matching closing one.
pub fn inside_parens(s: &Vec<u8>, pos: usize) -> (r: Option<usize>)
    requires
        pos <= s.len(),
    ensures
        (match r {
            Some(close) => {
                &&& pos < close < s.len()
                &&& s@[pos as int] == CH_LPAREN
                &&& close_at(s@, pos as int + 1, 1) == Some(close as int)
            },
            None => pos == s.len() || s@[pos as int] != CH_LPAREN || close_at(
                s@,
                pos as int + 1,
                1,
            ) is None,
        }),
{
    if !(pos < s.len() && s[pos] == CH_LPAREN) {
        return None;
    }
    let mut i: usize = pos + 1;
    let mut depth: usize = 1;
    while i < s.len()
        invariant
            pos < s.len() && s@[pos as int] == CH_LPAREN,
            pos + 1 <= i <= s.len(),
            1 <= depth <= i - pos,
            close_at(s@, pos as int + 1, 1) == close_at(s@, i as int, depth as int),
        decreases s.len() - i,
    {
        let c = s[i];
        if c == CH_LPAREN {
            depth = depth + 1;
        } else if c == CH_RPAREN {
            if depth == 1 {
                return Some(i);
            }
            depth = depth - 1;
        }
        i = i + 1;
    }
    None
}

} // verus!
