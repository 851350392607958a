use vstd::prelude::*;

use crate::error::EnigmaError;

verus! {

/// A wiring table over N contacts: entry `i` is the contact reached from
/// input `i`. Used forward (input side to output side) in constant time and
/// backward by a linear search for the matching entry.
#[derive(Debug)]
pub struct Wiring {
    map: Vec<u8>,
}

/// A wiring table is well formed when it fits the symbol domain and every
/// entry points back into the table.
pub open spec fn wiring_wf(m: Seq<u8>) -> bool {
    m.len() <= 256 && forall|i: int| 0 <= i < m.len() ==> (m[i] as int) < m.len()
}

/// The contact reached from input `x` through table `m`.
pub open spec fn wiring_fwd(m: Seq<u8>, x: int) -> int {
    m[x] as int
}

/// The first index of `m` holding `y`, or -1 when no entry does.
pub open spec fn find_index(m: Seq<u8>, y: int) -> int
    decreases m.len(),
{
    if m.len() == 0 {
        -1
    } else if m[0] as int == y {
        0
    } else if find_index(m.drop_first(), y) < 0 {
        -1
    } else {
        find_index(m.drop_first(), y) + 1
    }
}

/// The input whose table entry is `y`: the backward reading of the table.
pub open spec fn wiring_back(m: Seq<u8>, y: int) -> int {
    find_index(m, y)
}

/// No two inputs share an entry.
pub open spec fn injective(m: Seq<u8>) -> bool {
    forall|i: int, j: int|
        0 <= i < m.len() && 0 <= j < m.len() && i != j ==> m[i] != m[j]
}

/// Every contact is some entry of the table.
pub open spec fn surjective(m: Seq<u8>) -> bool {
    forall|y: int| 0 <= y < m.len() ==> #[trigger] m.contains(y as u8)
}

/// A true permutation of the contacts: the only tables a physically
/// realizable machine part can carry.
pub open spec fn is_permutation(m: Seq<u8>) -> bool {
    wiring_wf(m) && injective(m) && surjective(m)
}

/// Reading the table twice returns the start contact, as a reflector must.
pub open spec fn is_involution(m: Seq<u8>) -> bool {
    wiring_wf(m) && forall|i: int| 0 <= i < m.len() ==> m[m[i] as int] as int == i
}

/// What `find_index` returns: the first matching index when one exists,
/// -1 when none does.
pub proof fn lemma_find_index(m: Seq<u8>, y: int)
    ensures
        find_index(m, y) >= 0 ==> 0 <= find_index(m, y) < m.len()
            && m[find_index(m, y)] as int == y
            && (forall|k: int| 0 <= k < find_index(m, y) ==> m[k] as int != y),
        find_index(m, y) < 0 ==> find_index(m, y) == -1
            && (forall|k: int| 0 <= k < m.len() ==> m[k] as int != y),
    decreases m.len(),
{
    if m.len() > 0 && m[0] as int != y {
        let rest = m.drop_first();
        lemma_find_index(rest, y);
        let fr = find_index(rest, y);
        if fr >= 0 {
            assert(rest[fr] == m[fr + 1]);
            assert forall|k: int| 0 <= k < fr + 1 implies m[k] as int != y by {
                if k > 0 {
                    assert(rest[k - 1] == m[k]);
                }
            }
        } else {
            assert forall|k: int| 0 <= k < m.len() implies m[k] as int != y by {
                if k > 0 {
                    assert(rest[k - 1] == m[k]);
                }
            }
        }
    }
}

/// In an injective table, the backward reading of input `x`'s own entry
/// is `x` itself.
pub proof fn lemma_back_of_fwd(m: Seq<u8>, x: int)
    requires
        injective(m),
        0 <= x < m.len(),
    ensures
        wiring_back(m, wiring_fwd(m, x)) == x,
{
    let y = wiring_fwd(m, x);
    lemma_find_index(m, y);
    let fi = find_index(m, y);
    if fi < 0 {
        assert(m[x] as int != y);
    }
    if fi != x {
        assert(m[fi] != m[x]);
    }
}

/// In a surjective table, every contact has a backward reading, and its
/// entry is that contact.
pub proof fn lemma_fwd_of_back(m: Seq<u8>, y: int)
    requires
        surjective(m),
        0 <= y < m.len(),
        m.len() <= 256,
    ensures
        0 <= wiring_back(m, y) < m.len(),
        wiring_fwd(m, wiring_back(m, y)) == y,
{
    lemma_find_index(m, y);
    if find_index(m, y) < 0 {
        assert(m.contains(y as u8));
        let w = choose|i: int| 0 <= i < m.len() && m[i] == y as u8;
        assert(m[w] as int != y);
    }
}

/// Round trip through a valid wiring: reading forward then backward, or
/// backward then forward, returns the contact one started from.
pub proof fn lemma_wiring_round_trip(m: Seq<u8>, x: int)
    requires
        is_permutation(m),
        0 <= x < m.len(),
    ensures
        wiring_back(m, wiring_fwd(m, x)) == x,
        0 <= wiring_back(m, x) < m.len(),
        wiring_fwd(m, wiring_back(m, x)) == x,
{
    lemma_back_of_fwd(m, x);
    lemma_fwd_of_back(m, x);
}

impl View for Wiring {
    type V = Seq<u8>;

    closed spec fn view(&self) -> Seq<u8> {
        self.map@
    }
}

impl Wiring {
    /// Builds a wiring table, rejecting one too large for the symbol domain
    /// or one with an entry that points outside the table.
    pub fn new(map: Vec<u8>) -> (res: Result<Wiring, EnigmaError>)
        ensures
            res is Ok <==> wiring_wf(map@),
            res matches Ok(w) ==> w@ == map@,
            map@.len() > 256 ==> res == Err::<Wiring, EnigmaError>(EnigmaError::MapTooLarge),
            map@.len() <= 256 && !wiring_wf(map@)
                ==> res == Err::<Wiring, EnigmaError>(EnigmaError::ContactOutOfRange),
    {
        if map.len() > 256 {
            return Err(EnigmaError::MapTooLarge);
        }
        let n = map.len();
        for i in 0..n
            invariant
                n == map@.len() <= 256,
                forall|k: int| 0 <= k < i ==> (map@[k] as int) < n as int,
        {
            if map[i] as usize >= n {
                return Err(EnigmaError::ContactOutOfRange);
            }
        }
        Ok(Wiring { map })
    }

    /// The contact reached from `input`; the caller guarantees `input` is
    /// within the table.
    pub fn translate(&self, input: u8) -> (r: u8)
        requires
            (input as int) < self@.len(),
        ensures
            r as int == wiring_fwd(self@, input as int),
    {
        self.map[input as usize]
    }

    /// The input wired to contact `input`, found by searching the table;
    /// fails only when no entry matches, which means the table is not a
    /// true permutation.
    pub fn translate_backwards(&self, input: u8) -> (res: Result<u8, EnigmaError>)
        requires
            self@.len() <= 256,
        ensures
            res is Ok <==> self@.contains(input),
            res matches Ok(r) ==> r as int == wiring_back(self@, input as int),
            res is Err ==> res == Err::<u8, EnigmaError>(EnigmaError::MissingBackwardConnection),
    {
        let n = self.map.len();
        for j in 0..n
            invariant
                n == self@.len() <= 256,
                forall|k: int| 0 <= k < j ==> self@[k] != input,
        {
            if self.map[j] == input {
                proof {
                    lemma_find_index(self@, input as int);
                    let fi = find_index(self@, input as int);
                    if fi < 0 {
                        assert(self@[j as int] as int != input as int);
                    }
                    assert(fi == j as int);
                }
                return Ok(j as u8);
            }
        }
        proof {
            if self@.contains(input) {
                let w = choose|i: int| 0 <= i < self@.len() && self@[i] == input;
                assert(self@[w] != input);
            }
        }
        Err(EnigmaError::MissingBackwardConnection)
    }

    /// The number of contacts in the table.
    pub fn len(&self) -> (n: usize)
        ensures
            n == self@.len(),
    {
        self.map.len()
    }
}

} // verus!
