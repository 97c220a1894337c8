use vstd::prelude::*;
use std::collections::HashMap;

verus! {

broadcast use vstd::std_specs::hash::group_hash_axioms;

/// The commands a client may choose after sending a number.
#[derive(PartialEq, Eq, Structural, Clone, Copy)]
pub enum Op {
    /// Ask for the square of the number.
    Square,
    /// Ask whether the number is even.
    Even,
}

/// The server's answer to a command.
#[derive(PartialEq, Eq, Structural, Clone, Copy)]
pub enum Reply {
    Square(u64),
    Even(bool),
}

/// The server of the square-or-parity protocol: the square of `n`, or
/// whether `n` is even.
pub fn serve(n: u64, op: Op) -> (r: Reply)
    requires
        op == Op::Square ==> n * n <= u64::MAX,
    ensures
        op == Op::Square ==> r == Reply::Square((n * n) as u64),
        op == Op::Even ==> r == Reply::Even(n % 2 == 0),
{
    match op {
        Op::Square => Reply::Square(n * n),
        Op::Even => {
            assert(n & 1 == n % 2) by (bit_vector);
            Reply::Even(n & 1 == 0)
        },
    }
}

/// A request to the key-value server.
#[derive(PartialEq, Eq, Structural, Clone, Copy)]
pub enum DbRequest {
    /// Store a value under a key.
    Put(u64, u64),
    /// Look a key up.
    Get(u64),
    /// End the session.
    Quit,
}

/// The key-value server's answer.
#[derive(PartialEq, Eq, Structural, Clone, Copy)]
pub enum DbReply {
    /// The value was stored; nothing is sent back.
    Stored,
    /// The value under the key, if any.
    Value(Option<u64>),
    /// The session is closed.
    Closed,
}

/// The data of the key-value server.
pub struct Db {
    db: HashMap<u64, u64>,
}

impl Db {
    /// The stored values by key.
    pub closed spec fn contents(&self) -> Map<u64, u64> {
        self.db@
    }

    /// An empty store.
    pub fn new() -> (r: Self)
        ensures
            r.contents() == Map::<u64, u64>::empty(),
    {
        Db { db: HashMap::new() }
    }

    /// Serves one request: a put stores the value (replacing any earlier
    /// one), a get answers the value under the key if there is one, and a
    /// quit closes the session.
    pub fn handle(&mut self, req: DbRequest) -> (r: DbReply)
        ensures
            match req {
                DbRequest::Put(k, v) => r == DbReply::Stored && final(self).contents() == old(
                    self,
                ).contents().insert(k, v),
                DbRequest::Get(k) => final(self).contents() == old(self).contents() && r
                    == DbReply::Value(
                    if old(self).contents().contains_key(k) {
                        Some(old(self).contents()[k])
                    } else {
                        None
                    },
                ),
                DbRequest::Quit => r == DbReply::Closed && final(self).contents() == old(
                    self,
                ).contents(),
            },
    {
        match req {
            DbRequest::Put(key, val) => {
                self.db.insert(key, val);
                DbReply::Stored
            },
            DbRequest::Get(key) => {
                match self.db.get(&key) {
                    Some(val) => DbReply::Value(Some(*val)),
                    None => DbReply::Value(None),
                }
            },
            DbRequest::Quit => DbReply::Closed,
        }
    }
}

/// Law: a get answers what the last put under the same key stored, and a
/// put under one key leaves the others alone.
pub proof fn law_get_after_put(m: Map<u64, u64>, k: u64, v: u64, other: u64)
    requires
        other != k,
    ensures
        m.insert(k, v).contains_key(k),
        m.insert(k, v)[k] == v,
        m.insert(k, v).contains_key(other) == m.contains_key(other),
        m.contains_key(other) ==> m.insert(k, v)[other] == m[other],
{
}

} // verus!
