//! Buffered token input: a queue of whitespace-separated tokens, refilled
//! from standard input whenever it runs dry.  Only the refill touches the
//! outside world; consuming tokens is ordinary verified code.

use std::str::FromStr;
use vstd::prelude::*;

verus! {

/// The token queue as mathematics: one character sequence per pending token.
pub closed spec fn sview(s: Scanner) -> Seq<Seq<char>> {
    Seq::new(s.buffer@.len(), |t: int| s.buffer@[t]@)
}

/// Every pending token holds at least one character, as whitespace
/// splitting guarantees.
pub closed spec fn tokens_ok(s: Scanner) -> bool {
    forall|t: int| 0 <= t < sview(s).len() ==> (#[trigger] sview(s)[t]).len() > 0
}

/// A buffered reader of whitespace-separated tokens.
pub struct Scanner {
    buffer: Vec<Vec<char>>,
}

impl Scanner {
    pub fn new() -> (s: Scanner)
        ensures
            sview(s).len() == 0,
            tokens_ok(s),
    {
        Scanner { buffer: Vec::new() }
    }

    /// Refills the token queue from standard input until it holds a token;
    /// with tokens already pending it changes nothing.  Relies on
    /// `std::io::Stdin::read_line` for the lines and on
    /// `str::split_whitespace` for the cut into tokens, which are nonempty
    /// and free of whitespace; it keeps reading, without returning, while
    /// the input yields no token.
    #[verifier::external_body]
    pub fn reserve(&mut self)
        ensures
            sview(*final(self)).len() > 0,
            sview(*old(self)).len() > 0 ==> sview(*final(self)) == sview(*old(self)),
            tokens_ok(*old(self)) ==> tokens_ok(*final(self)),
    {
        while self.buffer.len() == 0 {
            let mut line = String::new();
            let _ = std::io::stdin().read_line(&mut line);
            for w in line.split_whitespace() {
                self.buffer.push(w.chars().collect());
            }
        }
    }

    /// Reads one token and parses it as a `T`, refilling the queue first if
    /// it is empty: the front token leaves the queue and the rest move up.
    pub fn cin<T: FromStr>(&mut self) -> (r: T)
        requires
            tokens_ok(*old(self)),
        ensures
            tokens_ok(*final(self)),
            sview(*old(self)).len() > 0 ==> sview(*final(self)) == sview(*old(self)).subrange(
                1,
                sview(*old(self)).len() as int,
            ),
    {
        self.reserve();
        let ghost pre = sview(*self);
        let tok = self.buffer.remove(0);
        proof {
            assert(sview(*self) =~= pre.subrange(1, pre.len() as int));
        }
        parse_token(tok)
    }

    /// Reads one character: the first character of the front token, which
    /// loses that character, or leaves the queue once spent.
    pub fn get_char(&mut self) -> (c: char)
        requires
            tokens_ok(*old(self)),
        ensures
            tokens_ok(*final(self)),
            sview(*old(self)).len() > 0 ==> {
                &&& c == sview(*old(self))[0][0]
                &&& (sview(*old(self))[0].len() > 1 ==> sview(*final(self)) == sview(
                    *old(self),
                ).update(0, sview(*old(self))[0].subrange(1, sview(*old(self))[0].len() as int)))
                &&& (sview(*old(self))[0].len() == 1 ==> sview(*final(self)) == sview(
                    *old(self),
                ).subrange(1, sview(*old(self)).len() as int))
            },
    {
        self.reserve();
        let ghost pre = sview(*self);
        let mut tok = self.buffer.remove(0);
        proof {
            assert(pre[0].len() > 0);
            assert(tok@ == pre[0]);
        }
        let head = tok.remove(0);
        if tok.len() > 0 {
            self.buffer.insert(0, tok);
            proof {
                assert(sview(*self) =~= pre.update(
                    0,
                    pre[0].subrange(1, pre[0].len() as int),
                ));
            }
        } else {
            proof {
                assert(sview(*self) =~= pre.subrange(1, pre.len() as int));
            }
        }
        head
    }
}

/// Parses a token as a `T` through `str::parse`; a token that does not
/// parse aborts the run, as the surrounding program expects of malformed
/// input.
#[verifier::external_body]
fn parse_token<T: FromStr>(tok: Vec<char>) -> T {
    let s: String = tok.into_iter().collect();
    s.parse::<T>().ok().expect("parse err")
}

} // verus!
