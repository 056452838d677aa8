//! Handing out the ports that the web drivers of the scraper pool listen on.
use vstd::prelude::*;

verus! {

/// Creates scrapers whose drivers listen on ports from `base_port` up.
pub struct PoolManager {
    base_port: u16,
}

impl PoolManager {
    pub fn new(base_port: u16) -> (m: PoolManager)
        ensures
            m.base_port() == base_port,
    {
        PoolManager { base_port }
    }

    pub closed spec fn base_port(&self) -> u16 {
        self.base_port
    }

    /// The first port the manager tries.
    pub fn get_base_port(&self) -> (p: u16)
        ensures
            p == self.base_port(),
    {
        self.base_port
    }
}

/// The first port at or above `p` that is not taken, if there is one.
pub open spec fn first_free(taken: Seq<u16>, p: int) -> Option<u16>
    decreases 0x10000 - p,
{
    if p < 0 || p > 0xFFFF {
        None
    } else if !taken.contains(p as u16) {
        Some(p as u16)
    } else {
        first_free(taken, p + 1)
    }
}

/// The first free port at or above `p` is free and every port before it
/// from `p` on is taken; where there is none, every port from `p` on is taken.
pub proof fn lemma_first_free(taken: Seq<u16>, p: int)
    requires
        0 <= p,
    ensures
        first_free(taken, p) matches Some(q) ==> p <= q && !taken.contains(q) && forall|x: int|
            p <= x < q ==> taken.contains(#[trigger] (x as u16)),
        first_free(taken, p) is None ==> forall|x: int|
            p <= x <= 0xFFFF ==> taken.contains(#[trigger] (x as u16)),
    decreases 0x10000 - p,
{
    if p <= 0xFFFF && taken.contains(p as u16) {
        lemma_first_free(taken, p + 1);
    }
}

fn is_taken(taken: &Vec<u16>, port: u16) -> (b: bool)
    ensures
        b == taken@.contains(port),
{
    let mut i: usize = 0;
    while i < taken.len()
        invariant
            i <= taken.len(),
            forall|q: int| 0 <= q < i ==> taken@[q] != port,
        decreases taken.len() - i,
    {
        if taken[i] == port {
            return true;
        }
        i += 1;
    }
    false
}

/// The first port at or above `start` that is not taken. The port is not
/// reserved.
pub fn get_first_available_port(taken: &Vec<u16>, start: u16) -> (port: u16)
    requires
        first_free(taken@, start as int) is Some,
    ensures
        first_free(taken@, start as int) == Some(port),
        start <= port,
        !taken@.contains(port),
        forall|x: int| start <= x < port ==> taken@.contains(#[trigger] (x as u16)),
{
    proof {
        lemma_first_free(taken@, start as int);
    }
    let mut current = start;
    loop
        invariant
            start <= current,
            first_free(taken@, start as int) == first_free(taken@, current as int),
            first_free(taken@, start as int) is Some,
        decreases 0x10000 - current,
    {
        if !is_taken(taken, current) {
            proof {
                lemma_first_free(taken@, start as int);
            }
            return current;
        }
        if current == 0xFFFF {
            assert(first_free(taken@, 0x10000) is None);
            assert(false);
        }
        current += 1;
    }
}

/// Reserves and returns the first port at or above `base_port` that is not
/// taken yet.
pub fn get_next_port(taken: &mut Vec<u16>, base_port: u16) -> (port: u16)
    requires
        first_free(old(taken)@, base_port as int) is Some,
    ensures
        first_free(old(taken)@, base_port as int) == Some(port),
        !old(taken)@.contains(port),
        final(taken)@ == old(taken)@.push(port),
{
    let port = get_first_available_port(taken, base_port);
    taken.push(port);
    port
}

/// Two ports reserved one after the other differ, and both are taken
/// afterwards.
pub proof fn lemma_reserved_ports_differ(taken: Seq<u16>, first_base: u16, second_base: u16)
    requires
        first_free(taken, first_base as int) is Some,
        first_free(taken.push(first_free(taken, first_base as int)->0), second_base as int) is Some,
    ensures
        ({
            let p1 = first_free(taken, first_base as int)->0;
            let p2 = first_free(taken.push(p1), second_base as int)->0;
            &&& p1 != p2
            &&& taken.push(p1).push(p2).contains(p1)
            &&& taken.push(p1).push(p2).contains(p2)
        }),
{
    let p1 = first_free(taken, first_base as int)->0;
    let t1 = taken.push(p1);
    lemma_first_free(t1, second_base as int);
    let p2 = first_free(t1, second_base as int)->0;
    assert(t1[taken.len() as int] == p1);
    assert(t1.push(p2)[taken.len() as int] == p1);
    assert(t1.push(p2)[t1.len() as int] == p2);
}

} // verus!
