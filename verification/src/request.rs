//! The pending-query map: queries this client has sent, keyed by
//! their transaction id, so a reply can be matched to what was asked.
use vstd::prelude::*;

verus! {

/// Which kind of query a transaction id belongs to.
#[derive(Debug, PartialEq, Eq, Structural, Clone, Copy)]
pub enum Query {
    PING,
    FindNode,
    GetPeers,
    AnnouncePeer,
}

/// The query bound to a transaction id, first match.
pub open spec fn rb_assoc(entries: Seq<(String, Query)>, tid: Seq<char>) -> Option<Query>
    decreases entries.len(),
{
    if entries.len() == 0 {
        Option::None
    } else if entries.first().0@ == tid {
        Option::Some(entries.first().1)
    } else {
        rb_assoc(entries.drop_first(), tid)
    }
}

/// A bounded store of in-flight queries keyed by transaction id.
pub struct RequestBucket {
    entries: Vec<(String, Query)>,
}

impl RequestBucket {
    /// The stored entries, in insertion order.
    pub closed spec fn view(&self) -> Seq<(String, Query)> {
        self.entries@
    }

    /// An empty bucket.
    pub fn new() -> (r: RequestBucket)
        ensures
            r@.len() == 0,
    {
        RequestBucket { entries: Vec::new() }
    }

    /// Record an in-flight query under its transaction id.
    pub fn add_request(&mut self, transaction_id: String, query: Query)
        ensures
            final(self)@ == old(self)@.push((transaction_id, query)),
    {
        self.entries.push((transaction_id, query));
    }

    /// Take the query a transaction id belongs to out of the bucket;
    /// a reply with an unknown id yields nothing.
    pub fn get_request(&mut self, transaction_id: &str) -> (r: Option<Query>)
        ensures
            r == rb_assoc(old(self)@, transaction_id@),
            r is None ==> final(self)@ == old(self)@,
            r is Some ==> (exists|i: int|
                0 <= i < old(self)@.len() && (#[trigger] old(self)@[i].0@) == transaction_id@
                    && final(self)@ == old(self)@.remove(i)),
    {
        let n = self.entries.len();
        let mut i: usize = 0;
        proof {
            assert(self@.skip(0) =~= self@);
        }
        while i < n
            invariant
                i <= n,
                n == self@.len(),
                self@ == old(self)@,
                rb_assoc(self@, transaction_id@) == rb_assoc(
                    self@.skip(i as int),
                    transaction_id@,
                ),
                forall|j: int| 0 <= j < i ==> (#[trigger] self@[j].0@) != transaction_id@,
            decreases n - i,
        {
            proof {
                assert(self@.skip(i as int).first() == self@[i as int]);
                assert(self@.skip(i as int).drop_first() =~= self@.skip(i + 1));
            }
            if crate::utils::eq_str(self.entries[i].0.as_str(), transaction_id) {
                let q = self.entries[i].1;
                self.entries.remove(i);
                proof {
                    old(self)@.remove_ensures(i as int);
                }
                return Some(q);
            }
            i = i + 1;
        }
        proof {
            assert(self@.skip(n as int).len() == 0);
        }
        None
    }
}

} // verus!
