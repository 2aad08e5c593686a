//! Random bytes from the operating system.

use vstd::prelude::*;

verus! {

/// `getrandom::getrandom` fills a buffer with random bytes, or fails and tells
/// why; an empty buffer it fills at once, without asking the operating system.
/// Nothing is said of the bytes but how many they are, and nothing of what the
/// error tells.
#[verifier::external_body]
fn fill(buf: Vec<u8>) -> (res: Result<Vec<u8>, String>)
    ensures
        res matches Ok(bytes) ==> bytes@.len() == buf@.len(),
        buf@.len() == 0 ==> res is Ok,
{
    let mut buf = buf;
    match getrandom::getrandom(&mut buf) {
        Ok(()) => Ok(buf),
        Err(e) => Err(e.to_string()),
    }
}

/// The operating system gave no random bytes, and why.
#[derive(Clone, Debug, PartialEq, Eq)]
pub struct NoRandom {
    pub why: String,
}

/// Passes on what the operating system gave, or why it gave nothing.
pub fn received(drawn: Result<Vec<u8>, String>) -> (res: Result<Vec<u8>, NoRandom>)
    ensures
        match drawn {
            Ok(bytes) => res == Ok::<Vec<u8>, NoRandom>(bytes),
            Err(why) => res matches Err(e) && e.why == why,
        },
{
    match drawn {
        Ok(bytes) => Ok(bytes),
        Err(why) => Err(NoRandom { why }),
    }
}

/// Draws `n` random bytes. No bytes at all can always be drawn.
pub fn random_bytes(n: usize) -> (res: Result<Vec<u8>, NoRandom>)
    ensures
        res matches Ok(bytes) ==> bytes@.len() == n,
        n == 0 ==> res is Ok,
{
    let mut buf: Vec<u8> = Vec::new();
    let mut i: usize = 0;
    while i < n
        invariant
            i <= n,
            buf@.len() == i,
        decreases n - i,
    {
        buf.push(0);
        i = i + 1;
    }
    received(fill(buf))
}

}
