//! The application carried by sessions: each line comes back reversed.

use vstd::prelude::*;
use crate::text::{chars_of, push_char};

verus! {

/// Reverses lines.
#[derive(Clone, Copy, Debug, Default, PartialEq, Eq)]
pub struct Reverse;

impl Reverse {
    pub fn new() -> Reverse {
        Reverse
    }

    /// The characters of `line` in reverse order.
    pub fn reverse_line(&self, line: &str) -> (r: String)
        ensures
            r@ == line@.reverse(),
    {
        let c = chars_of(line);
        let mut r = String::new();
        let mut i: usize = c.len();
        while i > 0
            invariant
                i <= c@.len(),
                c@ == line@,
                r@ == c@.subrange(i as int, c@.len() as int).reverse(),
            decreases i,
        {
            i = i - 1;
            push_char(&mut r, c[i]);
            assert(c@.subrange(i as int, c@.len() as int) =~= seq![c@[i as int]] + c@.subrange(
                i + 1,
                c@.len() as int,
            ));
            assert(r@ =~= c@.subrange(i as int, c@.len() as int).reverse());
        }
        assert(c@.subrange(0, c@.len() as int) =~= c@);
        r
    }
}

} // verus!
