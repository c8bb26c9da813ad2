//! Load-balancer decisions: where an upstream lives and which upstream takes
//! the next connection (strict round robin).

use vstd::prelude::*;

verus! {

/// An upstream API instance: a Unix-domain socket path or a TCP address.
#[derive(Debug, Clone)]
pub enum Upstream {
    Uds(String),
    Tcp(String),
}

/// `str::strip_prefix`: the text of `s` after `prefix`, when `s` starts
/// with `prefix`; `None` otherwise.
#[verifier::external_body]
fn strip_prefix<'a>(s: &'a str, prefix: &str) -> (r: Option<&'a str>)
    ensures
        match r {
            Some(rest) => prefix@.is_prefix_of(s@) && rest@ == s@.skip(prefix@.len() as int),
            None => !prefix@.is_prefix_of(s@),
        },
{
    s.strip_prefix(prefix)
}

/// What `Upstream::parse` gives for the text `s`: `unix:<path>` and
/// `tcp:<address>` name their kind; anything else is a socket path.
pub open spec fn spec_upstream(s: Seq<char>) -> (bool, Seq<char>) {
    if "unix:"@.is_prefix_of(s) {
        (false, s.skip("unix:"@.len() as int))
    } else if "tcp:"@.is_prefix_of(s) {
        (true, s.skip("tcp:"@.len() as int))
    } else {
        (false, s)
    }
}

impl Upstream {
    /// Reads `unix:<path>`, `tcp:<address>` or a bare socket path.
    pub fn parse(s: &str) -> (r: Self)
        ensures
            match r {
                Upstream::Uds(p) => !spec_upstream(s@).0 && p@ == spec_upstream(s@).1,
                Upstream::Tcp(a) => spec_upstream(s@).0 && a@ == spec_upstream(s@).1,
            },
    {
        if let Some(path) = strip_prefix(s, "unix:") {
            Upstream::Uds(path.to_owned())
        } else if let Some(addr) = strip_prefix(s, "tcp:") {
            Upstream::Tcp(addr.to_owned())
        } else {
            Upstream::Uds(s.to_owned())
        }
    }
}

/// The counter after `c`: one more, wrapping at `usize::MAX`.
pub open spec fn spec_next_counter(c: int) -> int {
    if c == usize::MAX {
        0
    } else {
        c + 1
    }
}

/// The counter once `n` connections were handed out, starting from `0`.
pub open spec fn counter_after(n: nat) -> int
    decreases n,
{
    if n == 0 {
        0
    } else {
        spec_next_counter(counter_after((n - 1) as nat))
    }
}

/// Round robin over `count` upstreams: the index for a connection numbered
/// `counter`, and the next counter (wrapping at `usize::MAX`).
pub fn next_upstream(counter: usize, count: usize) -> (r: (usize, usize))
    requires
        count > 0,
    ensures
        r.0 == counter % count,
        r.1 == spec_next_counter(counter as int),
{
    let idx = counter % count;
    let next = counter.wrapping_add(1);
    (idx, next)
}

/// Round robin visits the upstreams in turn: the connection after the one
/// sent to upstream `i` goes to upstream `(i + 1) % count` (until the
/// counter wraps).
pub proof fn round_robin_takes_turns(counter: usize, count: usize)
    requires
        count > 0,
        counter < usize::MAX,
    ensures
        (counter + 1) % (count as int) == ((counter % count) + 1) % (count as int),
{
    vstd::arithmetic::div_mod::lemma_add_mod_noop(counter as int, 1, count as int);
    if count > 1 {
        vstd::arithmetic::div_mod::lemma_small_mod(1, count as nat);
    }
    vstd::arithmetic::div_mod::lemma_mod_twice(counter as int, count as int);
}

/// Connections are dealt out in turn: with a counter that starts at `0` and
/// goes through `next_upstream` once per connection, connection number `n`
/// (counting from `0`) goes to upstream `n % count`, for every `n` up to
/// `usize::MAX`.
pub proof fn connections_go_round(n: nat, count: usize)
    requires
        count > 0,
        n <= usize::MAX,
    ensures
        counter_after(n) == n,
        counter_after(n) % (count as int) == (n as int) % (count as int),
    decreases n,
{
    if n > 0 {
        connections_go_round((n - 1) as nat, count);
    }
}

} // verus!
