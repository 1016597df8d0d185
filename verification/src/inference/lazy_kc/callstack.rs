//! Callstacks, with a hash that is kept up to date as they grow and shrink.

use vstd::prelude::*;

verus! {

/// Position-dependent random value for Zobrist hashing: a deterministic
/// function of depth and value.
pub open spec fn mixed(depth: u64, val: i32) -> u64 {
    let h = depth.wrapping_mul(0x9E3779B97F4A7C15);
    let h = h ^ (val as u64).wrapping_mul(0x517CC1B727220A95);
    let h = h ^ (h >> 33);
    let h = h.wrapping_mul(0xFF51AFD7ED558CCD);
    let h = h ^ (h >> 33);
    let h = h.wrapping_mul(0xC4CEB9FE1A85EC53);
    h ^ (h >> 33)
}

/// The hash of a callstack: the values at all depths, combined.
pub open spec fn hash_of(s: Seq<i32>) -> u64
    decreases s.len(),
{
    if s.len() == 0 {
        0
    } else {
        hash_of(s.drop_last()) ^ mixed((s.len() - 1) as u64, s.last())
    }
}

fn zobrist(depth: usize, val: i32) -> (r: u64)
    ensures
        r == mixed(depth as u64, val),
{
    let h: u64 = (depth as u64).wrapping_mul(0x9E3779B97F4A7C15);
    let h: u64 = h ^ (val as u64).wrapping_mul(0x517CC1B727220A95);
    let h: u64 = h ^ (h >> 33);
    let h: u64 = h.wrapping_mul(0xFF51AFD7ED558CCD);
    let h: u64 = h ^ (h >> 33);
    let h: u64 = h.wrapping_mul(0xC4CEB9FE1A85EC53);
    h ^ (h >> 33)
}

/// Incrementally-hashed callstack. The hash is maintained in O(1) per push/pop
/// via Zobrist hashing.
#[derive(Debug)]
pub struct Callstack {
    stack: Vec<i32>,
    hash: u64,
}

impl View for Callstack {
    type V = Seq<i32>;

    closed spec fn view(&self) -> Seq<i32> {
        self.stack@
    }
}

impl Default for Callstack {
    fn default() -> (r: Self)
        ensures
            r.wf(),
            r@ == Seq::<i32>::empty(),
    {
        Self::new()
    }
}

impl Callstack {
    /// The stored hash is that of the stack.
    pub closed spec fn wf(self) -> bool {
        self.hash == hash_of(self.stack@)
    }

    pub fn new() -> (r: Self)
        ensures
            r.wf(),
            r@ == Seq::<i32>::empty(),
    {
        let r = Callstack { stack: Vec::new(), hash: 0 };
        assert(r@ =~= Seq::<i32>::empty());
        r
    }

    pub fn push(&mut self, val: i32)
        requires
            old(self).wf(),
        ensures
            final(self).wf(),
            final(self)@ == old(self)@.push(val),
    {
        let depth: usize = self.stack.len();
        let z: u64 = zobrist(depth, val);
        self.hash = self.hash ^ z;
        self.stack.push(val);
        assert(self.stack@.drop_last() =~= old(self).stack@);
    }

    /// Take the top value off.
    pub fn pop(&mut self) -> (r: i32)
        requires
            old(self).wf(),
            old(self)@.len() > 0,
        ensures
            final(self).wf(),
            r == old(self)@.last(),
            final(self)@ == old(self)@.drop_last(),
    {
        let top: usize = self.stack.len() - 1;
        let val: i32 = self.stack[top];
        let ghost rest = hash_of(self.stack@.drop_last());
        self.stack.pop();
        let z: u64 = zobrist(self.stack.len(), val);
        proof {
            assert((rest ^ z) ^ z == rest) by (bit_vector);
            assert(self.stack@ =~= old(self).stack@.drop_last());
        }
        self.hash = self.hash ^ z;
        val
    }

    pub fn hash(&self) -> (r: u64)
        requires
            self.wf(),
        ensures
            r == hash_of(self@),
    {
        self.hash
    }

    pub fn as_slice(&self) -> (r: &[i32])
        ensures
            r@ == self@,
    {
        self.stack.as_slice()
    }

    pub fn to_vec(&self) -> (r: Vec<i32>)
        ensures
            r@ == self@,
    {
        let r: Vec<i32> = self.stack.clone();
        assert(r@ =~= self.stack@);
        r
    }

    /// Compute hash as if extra i32 values were appended (without modifying stack).
    pub fn hash_with_suffix(&self, extra: &[i32]) -> (r: u64)
        requires
            self.wf(),
            self@.len() + extra@.len() <= usize::MAX,
        ensures
            r == hash_of(self@ + extra@),
    {
        let mut h: u64 = self.hash;
        let mut i: usize = 0;
        assert(self@ + extra@.take(0) =~= self@);
        while i < extra.len()
            invariant
                i <= extra@.len(),
                self@.len() + extra@.len() <= usize::MAX,
                self@ == self.stack@,
                h == hash_of(self@ + extra@.take(i as int)),
            decreases extra@.len() - i,
        {
            let z: u64 = zobrist(self.stack.len() + i, extra[i]);
            h = h ^ z;
            proof {
                let next = self@ + extra@.take(i + 1);
                assert(next.drop_last() =~= self@ + extra@.take(i as int));
                assert(next.last() == extra@[i as int]);
            }
            i = i + 1;
        }
        assert(extra@.take(extra@.len() as int) =~= extra@);
        h
    }

    /// Reconstruct from a saved Vec<i32> (recomputes hash from scratch).
    pub fn from_vec(v: Vec<i32>) -> (r: Self)
        ensures
            r.wf(),
            r@ == v@,
    {
        let mut hash: u64 = 0;
        let mut depth: usize = 0;
        while depth < v.len()
            invariant
                depth <= v@.len(),
                hash == hash_of(v@.take(depth as int)),
            decreases v@.len() - depth,
        {
            let z: u64 = zobrist(depth, v[depth]);
            hash = hash ^ z;
            assert(v@.take(depth + 1).drop_last() =~= v@.take(depth as int));
            depth = depth + 1;
        }
        assert(v@.take(v@.len() as int) =~= v@);
        Callstack { stack: v, hash }
    }
}

/// Pushing a value and popping it again leaves the hash as it was.
pub proof fn lemma_push_pop(s: Seq<i32>, val: i32)
    ensures
        s.push(val).drop_last() == s,
        hash_of(s.push(val)) ^ mixed(s.len() as u64, val) == hash_of(s),
{
    assert(s.push(val).drop_last() =~= s);
    let h = hash_of(s);
    let z = mixed(s.len() as u64, val);
    assert((h ^ z) ^ z == h) by (bit_vector);
}

} // verus!
