//! Looking things up at most once.
//!
//! What was fetched is kept in a table, and the table in a file. A request is
//! first looked up in the table; only when it is not there is it fetched, and
//! no more than a fixed number of fetches run at a time. What a fetch brings
//! is put into the table, and the whole table is written out again.
//!
//! The resolver decides what is to be done next; fetching, waiting and writing
//! are its caller's.

use crate::table::{loaded, named, Table};
use vstd::prelude::*;

verus! {

/// How many fetches may run at a time.
pub const PERMITS: usize = 8;

/// What is known so far, and how many fetches are running.
pub struct Resolver<V> {
    known: Table<V>,
    running: usize,
}

/// What becomes of a request for `key`, given what is known and what a fetch
/// would bring: what is known after it, the value handed out, and how many
/// fetches it took.
pub open spec fn resolved<V>(known: Map<Seq<char>, V>, key: Seq<char>, fetched: V) -> (
    Map<Seq<char>, V>,
    V,
    nat,
) {
    if known.contains_key(key) {
        (known, known[key], 0)
    } else {
        (known.insert(key, fetched), fetched, 1)
    }
}

/// Asking twice for one thing hands out the same value twice and fetches at
/// most once, whatever a second fetch would have brought.
pub proof fn lemma_resolved_twice<V>(known: Map<Seq<char>, V>, key: Seq<char>, first: V, second: V)
    ensures
        ({
            let (after_one, one, fetches_one) = resolved(known, key, first);
            let (after_two, two, fetches_two) = resolved(after_one, key, second);
            &&& one == two
            &&& fetches_one + fetches_two <= 1
            &&& fetches_two == 0
            &&& after_two == after_one
        }),
{
}

/// What is to be done about a request.
#[derive(Clone, Copy, Debug, PartialEq, Eq, Structural)]
pub enum Todo {
    /// What is asked for is known: read it and hand it out.
    Answer,
    /// It is not known, and leave is given to fetch it.
    Fetch,
    /// It is not known, and as many fetches run as may: wait and ask again.
    Wait,
}

/// What is to be done about a request for `key` when this is known and this
/// many fetches run: first comes what is known, then the leave to fetch.
pub open spec fn todo_for<V>(known: Map<Seq<char>, V>, running: nat, key: Seq<char>) -> Todo {
    if known.contains_key(key) {
        Todo::Answer
    } else if running < PERMITS {
        Todo::Fetch
    } else {
        Todo::Wait
    }
}

impl<V> Resolver<V> {
    #[verifier::type_invariant]
    spec fn well_formed(self) -> bool {
        self.running <= PERMITS
    }

    /// What is known.
    pub closed spec fn view(self) -> Map<Seq<char>, V> {
        self.known@
    }

    /// How many fetches are running.
    pub closed spec fn running(self) -> nat {
        self.running as nat
    }

    /// A resolver that knows what `known` holds, with no fetch running.
    pub fn new(known: Table<V>) -> (out: Self)
        ensures
            out@ == known@,
            out.running() == 0,
    {
        Resolver { known, running: 0 }
    }

    /// A resolver that knows what a file with these rows holds.
    pub fn load(rows: Vec<(String, V)>) -> (out: Self)
        ensures
            out@ == loaded(named(rows@)),
            out.running() == 0,
    {
        Resolver { known: Table::from_rows(rows), running: 0 }
    }

    /// How many fetches are running.
    pub fn fetches_running(&self) -> (out: usize)
        ensures
            out == self.running(),
            out <= PERMITS,
    {
        proof {
            use_type_invariant(self);
        }
        self.running
    }

    /// What is known under `key`. Where this is something, the request is
    /// answered and nothing is fetched.
    pub fn lookup(&self, key: &str) -> (out: Option<&V>)
        ensures
            match out {
                Some(v) => self@.contains_key(key@) && *v == self@[key@],
                None => !self@.contains_key(key@),
            },
            forall|fetched: V|
                out matches Some(v) ==> #[trigger] resolved(self@, key@, fetched) == (
                    self@,
                    *v,
                    0nat,
                ),
    {
        self.known.get(key)
    }

    /// Says what is to be done about a request for `key`, and counts the
    /// fetch as running where it gives leave to fetch.
    pub fn ask(&mut self, key: &str) -> (todo: Todo)
        ensures
            todo == todo_for(old(self)@, old(self).running(), key@),
            final(self)@ == old(self)@,
            final(self).running() == old(self).running() + if todo == Todo::Fetch {
                1nat
            } else {
                0nat
            },
            final(self).running() <= PERMITS,
    {
        if self.known.get(key).is_some() {
            proof {
                use_type_invariant(&*self);
            }
            Todo::Answer
        } else if self.try_begin_fetch() {
            Todo::Fetch
        } else {
            Todo::Wait
        }
    }

    /// Asks for leave to fetch. It is given while fewer than `PERMITS` fetches
    /// are running, and the fetch then counts as running; else the caller
    /// waits and asks again.
    pub fn try_begin_fetch(&mut self) -> (leave: bool)
        ensures
            leave == (old(self).running() < PERMITS),
            final(self).running() == old(self).running() + if leave { 1nat } else { 0nat },
            final(self).running() <= PERMITS,
            final(self)@ == old(self)@,
    {
        proof {
            use_type_invariant(&*self);
        }
        if self.running < PERMITS {
            let mut taken = Resolver { known: Table::new(), running: 0 };
            core::mem::swap(self, &mut taken);
            *self = Resolver { known: taken.known, running: taken.running + 1 };
            true
        } else {
            false
        }
    }

    /// Takes in what a fetch for `key` brought: it is known from now on, and
    /// the fetch no longer runs. The table is then due to be written out. Only
    /// a fetch that was given leave can be finished.
    pub fn finish_fetch(&mut self, key: String, value: V)
        requires
            old(self).running() > 0,
        ensures
            final(self)@ == old(self)@.insert(key@, value),
            !old(self)@.contains_key(key@) ==> resolved(old(self)@, key@, value) == (
                final(self)@,
                value,
                1nat,
            ),
            final(self).running() == old(self).running() - 1,
    {
        proof {
            use_type_invariant(&*self);
        }
        let mut taken = Resolver { known: Table::new(), running: 0 };
        core::mem::swap(self, &mut taken);
        let mut known = taken.known;
        known.insert(key, value);
        let running = taken.running - 1;
        *self = Resolver { known, running };
    }

    /// Notes that a fetch failed: nothing more is known, and the fetch no
    /// longer runs. Only a fetch that was given leave can fail.
    pub fn abandon_fetch(&mut self)
        requires
            old(self).running() > 0,
        ensures
            final(self)@ == old(self)@,
            final(self).running() == old(self).running() - 1,
    {
        proof {
            use_type_invariant(&*self);
        }
        let mut taken = Resolver { known: Table::new(), running: 0 };
        core::mem::swap(self, &mut taken);
        let running = taken.running - 1;
        *self = Resolver { known: taken.known, running };
    }

    /// What is known, for writing out.
    pub fn table(&self) -> (out: &Table<V>)
        ensures
            out@ == self@,
    {
        &self.known
    }
}

} // verus!
