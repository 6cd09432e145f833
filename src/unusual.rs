//! Requests of a key-value store over datagrams: `key=value` inserts, any
//! other text queries a key.

use vstd::prelude::*;
use std::collections::HashMap;
use crate::text::chars_of;

verus! {

/// A request to the store.
#[derive(Clone, Debug, PartialEq, Eq)]
pub enum Message {
    Insert { key: String, value: String },
    Query(String),
}

/// Whether `m` is the request that the text `s` holds: split at its first
/// `=` into key and value, or a query for all of it when it has none.
pub open spec fn request_of(s: Seq<char>, m: Message) -> bool {
    match m {
        Message::Insert { key, value } => exists|i: int|
            0 <= i < s.len() && s[i] == '=' && (forall|j: int| 0 <= j < i ==> s[j] != '=')
                && key@ == s.subrange(0, i) && value@ == s.subrange(i + 1, s.len() as int),
        Message::Query(k) => (forall|j: int| 0 <= j < s.len() ==> s[j] != '=') && k@ == s,
    }
}

fn text_of(c: &Vec<char>, lo: usize, hi: usize) -> (r: String)
    requires
        lo <= hi <= c@.len(),
    ensures
        r@ == c@.subrange(lo as int, hi as int),
{
    let mut r = String::new();
    let mut i = lo;
    while i < hi
        invariant
            lo <= i <= hi <= c@.len(),
            r@ == c@.subrange(lo as int, i as int),
        decreases hi - i,
    {
        crate::text::push_char(&mut r, c[i]);
        assert(c@.subrange(lo as int, i + 1) =~= c@.subrange(lo as int, i as int).push(c@[i as int]));
        i = i + 1;
    }
    r
}

impl Message {
    /// The request that the text `s` holds.
    pub fn parse(s: &str) -> (r: Message)
        ensures
            request_of(s@, r),
    {
        let c = chars_of(s);
        let mut i: usize = 0;
        while i < c.len()
            invariant
                i <= c@.len(),
                c@ == s@,
                forall|j: int| 0 <= j < i ==> c@[j] != '=',
            decreases c.len() - i,
        {
            if c[i] == '=' {
                let key = text_of(&c, 0, i);
                let value = text_of(&c, i + 1, c.len());
                return Message::Insert { key, value };
            }
            i = i + 1;
        }
        assert(c@.subrange(0, c@.len() as int) =~= s@);
        Message::Query(text_of(&c, 0, c.len()))
    }
}

impl std::str::FromStr for Message {
    type Err = ();

    fn from_str(s: &str) -> (r: Result<Message, ()>)
        ensures
            r matches Ok(m) && request_of(s@, m),
    {
        Ok(Message::parse(s))
    }
}

/// The stored values by key.
#[derive(Clone, Debug, Default, PartialEq, Eq)]
pub struct Store(pub HashMap<String, String>);

} // verus!
