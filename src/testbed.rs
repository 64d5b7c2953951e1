//! Small items shared by the programs that exercise a server: which protocol
//! to speak, the readiness message, and a large response body.
use vstd::prelude::*;
use vstd::string::StringExecFns;

verus! {

/// The protocol a test server speaks.
#[derive(Debug, Clone, Copy, PartialEq, Eq, Structural)]
pub enum Proto {
    H1,
    H2,
}

/// Message sent when the server is ready to accept connections.
#[derive(Debug, PartialEq, Eq, Structural)]
pub struct Ready {
    pub port: u16,
}

/// `s` written `n` times in a row.
pub open spec fn repeated(s: Seq<char>, n: nat) -> Seq<char>
    decreases n,
{
    if n == 0 {
        Seq::empty()
    } else {
        repeated(s, (n - 1) as nat) + s
    }
}

/// A body of 32768 copies of "this is a big chunk".
pub fn big_body() -> (r: String)
    ensures
        r@ == repeated("this is a big chunk"@, 32768),
{
    let chunk = "this is a big chunk";
    let mut r = String::new();
    let mut i: usize = 0;
    while i < 32768
        invariant
            i <= 32768,
            r@ == repeated(chunk@, i as nat),
        decreases 32768 - i,
    {
        r.append(chunk);
        i = i + 1;
    }
    r
}

} // verus!
