//! The decisions of the HTTP helpers: which method a request uses and which client of the
//! pool serves it.

use crate::unicode::{spec_to_uppercase, to_uppercase};
use vstd::prelude::*;

verus! {

/// The HTTP method of a request.
#[derive(Debug, Clone, Copy, PartialEq, Eq)]
pub enum HttpMethod {
    Post,
    Put,
    Delete,
    Get,
}

/// The method named by `m` (already upper-cased): "POST", "PUT" or "DELETE"; any other name
/// is a GET.
pub open spec fn spec_request_method(m: Seq<char>) -> HttpMethod {
    if m == "POST"@ {
        HttpMethod::Post
    } else if m == "PUT"@ {
        HttpMethod::Put
    } else if m == "DELETE"@ {
        HttpMethod::Delete
    } else {
        HttpMethod::Get
    }
}

/// The method of a request, read from `method` in any case.
pub fn request_method(method: &String) -> (r: HttpMethod)
    ensures
        r == spec_request_method(spec_to_uppercase(method@)),
{
    let m = to_uppercase(method.as_str());
    if m == String::from_str("POST") {
        HttpMethod::Post
    } else if m == String::from_str("PUT") {
        HttpMethod::Put
    } else if m == String::from_str("DELETE") {
        HttpMethod::Delete
    } else {
        HttpMethod::Get
    }
}

/// Which client serves a request.
#[derive(Debug, Clone, Copy, PartialEq, Eq)]
pub enum ClientChoice {
    /// Build a client and add it to the pool, marked busy.
    AddToPool,
    /// Mark the pooled client at this position busy and use it.
    Reuse(usize),
    /// Build a client outside the pool.
    Unpooled,
}

/// The first position of `idle` that holds `true`, or -1.
pub open spec fn first_idle(idle: Seq<bool>) -> int
    decreases idle.len(),
{
    if idle.len() == 0 {
        -1
    } else if idle[0] {
        0
    } else {
        let r = first_idle(idle.drop_first());
        if r == -1 {
            -1
        } else {
            r + 1
        }
    }
}

/// The pool grows until it holds `parallel` clients (at least one); then the first idle
/// client, in the order given, is reused; when all are busy a client outside the pool serves.
pub open spec fn spec_pick_client(idle: Seq<bool>, parallel: i32) -> ClientChoice {
    let wanted = if parallel <= 0 {
        1
    } else {
        parallel as int
    };
    if idle.len() < wanted {
        ClientChoice::AddToPool
    } else if first_idle(idle) != -1 {
        ClientChoice::Reuse(first_idle(idle) as usize)
    } else {
        ClientChoice::Unpooled
    }
}

proof fn lemma_first_idle_range(idle: Seq<bool>)
    ensures
        -1 <= first_idle(idle) < idle.len(),
    decreases idle.len(),
{
    if idle.len() > 0 {
        lemma_first_idle_range(idle.drop_first());
    }
}

proof fn lemma_first_idle(idle: Seq<bool>, i: int)
    requires
        0 <= i <= idle.len(),
        forall|j: int| 0 <= j < i ==> !idle[j],
    ensures
        first_idle(idle) == (if first_idle(idle.skip(i)) == -1 {
            -1
        } else {
            first_idle(idle.skip(i)) + i
        }),
    decreases i,
{
    if i > 0 {
        assert(!idle[0]);
        let r = idle.drop_first();
        assert forall|j: int| 0 <= j < i - 1 implies !r[j] by {
            assert(r[j] == idle[j + 1]);
        }
        lemma_first_idle(r, i - 1);
        assert(r.skip(i - 1) =~= idle.skip(i));
        lemma_first_idle_range(idle.skip(i));
    } else {
        assert(idle.skip(0) =~= idle);
    }
}

/// Picks the client for a request; `idle` tells, for each pooled client in the order the
/// pool is walked, whether it is free.
pub fn pick_client(idle: &Vec<bool>, parallel: i32) -> (r: ClientChoice)
    requires
        idle@.len() <= i32::MAX,
    ensures
        r == spec_pick_client(idle@, parallel),
{
    let mut para = parallel;
    if para <= 0 {
        para = 1;
    }
    if (idle.len() as i32) < para {
        return ClientChoice::AddToPool;
    }
    let mut i: usize = 0;
    while i < idle.len()
        invariant
            0 <= i <= idle@.len(),
            idle@.len() >= (if parallel <= 0 {
                1
            } else {
                parallel as int
            }),
            forall|j: int| 0 <= j < i ==> !idle@[j],
        decreases idle.len() - i,
    {
        if idle[i] {
            proof {
                lemma_first_idle(idle@, i as int);
                assert(idle@.skip(i as int)[0] == idle@[i as int]);
                assert(first_idle(idle@.skip(i as int)) == 0);
                assert(first_idle(idle@) == i);
            }
            return ClientChoice::Reuse(i);
        }
        i += 1;
    }
    proof {
        lemma_first_idle(idle@, i as int);
        assert(idle@.skip(i as int).len() == 0);
    }
    ClientChoice::Unpooled
}

} // verus!
