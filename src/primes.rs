//! Answers of the prime-testing service.

use vstd::prelude::*;
use crate::text::same_text;

verus! {

/// An answer: the method asked for, and whether the number is prime.
#[derive(Clone, Debug, PartialEq, Eq)]
pub struct Response {
    pub method: String,
    pub prime: bool,
}

impl Response {
    /// The answer to a well-formed request.
    pub fn wellformed(prime: bool) -> (r: Response)
        ensures
            r.method@ == "isPrime"@,
            r.prime == prime,
    {
        Response { method: "isPrime".to_owned(), prime }
    }

    /// The answer to a malformed request, naming what was wrong.
    pub fn malformed(method: &str) -> (r: Response)
        ensures
            r.method@ == method@,
            !r.prime,
    {
        Response { method: method.to_owned(), prime: false }
    }
}

/// The number of a request, as far as the answer depends on it.
#[derive(Clone, Copy, Debug, PartialEq, Eq)]
pub enum Number {
    /// A non-negative integer that fits in 64 bits.
    Unsigned(u64),
    /// A negative integer that fits in 64 bits.
    Signed(i64),
    /// Any other number.
    Other,
}

/// Whether `n` is prime.
pub open spec fn is_prime_number(n: int) -> bool {
    n >= 2 && forall|d: int| 2 <= d < n ==> #[trigger] (n % d) != 0
}

/// Relies on `primal::is_prime`: a deterministic primality test, defined
/// for every `u64`.
#[verifier::external_body]
fn prime(n: u64) -> (r: bool)
    ensures
        r == is_prime_number(n as int),
{
    primal::is_prime(n)
}

/// The answer to a request with `method` and `number`, and whether the
/// connection closes after it. A method other than `isPrime` is answered
/// as malformed and closes; a number that is no integer is answered
/// "not prime" and closes; a negative integer is not prime.
pub fn answer(method: &str, number: Number) -> (r: (Response, bool))
    ensures
        method@ != "isPrime"@ ==> r.0.method@ == "Invalid method"@ && !r.0.prime && r.1,
        method@ == "isPrime"@ ==> r.0.method@ == "isPrime"@ && match number {
            Number::Unsigned(n) => r.0.prime == is_prime_number(n as int) && !r.1,
            Number::Signed(n) => r.0.prime == is_prime_number(n as int) && !r.1,
            Number::Other => !r.0.prime && r.1,
        },
{
    if !same_text(method, "isPrime") {
        return (Response::malformed("Invalid method"), true);
    }
    match number {
        Number::Unsigned(n) => (Response::wellformed(prime(n)), false),
        Number::Signed(n) => {
            if n < 0 {
                (Response::wellformed(false), false)
            } else {
                (Response::wellformed(prime(n as u64)), false)
            }
        },
        Number::Other => (Response::wellformed(false), true),
    }
}

} // verus!
