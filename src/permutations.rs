use vstd::prelude::*;

use vstd::arithmetic::power2::{lemma2_to64, lemma_pow2_strictly_increases, lemma_pow2_unfold};

verus! {

/// Two to the power `exponent`.
pub fn pow2(exponent: u32) -> (r: u32)
    requires
        exponent < 32,
    ensures
        r == vstd::arithmetic::power2::pow2(exponent as nat),
{
    let mut r: u32 = 1;
    let mut i: u32 = 0;
    proof {
        lemma2_to64();
    }
    while i < exponent
        invariant
            i <= exponent < 32,
            r == vstd::arithmetic::power2::pow2(i as nat),
        decreases exponent - i,
    {
        proof {
            lemma_pow2_unfold((i + 1) as nat);
            lemma_pow2_strictly_increases((i + 1) as nat, 32);
            lemma2_to64();
        }
        r = r * 2;
        i = i + 1;
    }
    r
}

/// The assignment for row `n` of a table over `size` variables: column 0 is the most
/// significant bit, and a 0 bit stands for true, so row 0 is all true.
pub open spec fn row_of(n: nat, size: nat) -> Seq<bool> {
    Seq::new(
        size,
        |col: int| (n / vstd::arithmetic::power2::pow2((size - col - 1) as nat)) % 2 == 0,
    )
}

/// Walks through the 2^size assignments of `size` boolean variables, one row at a time.
pub struct BoolPermutationsIterator {
    pub data: Vec<bool>,
    pub size: u32,
    pub current: u32,
    pub last: u32,
}

impl BoolPermutationsIterator {
    /// The fields agree: one value per variable, and `last` rows in all.
    pub open spec fn wf(&self) -> bool {
        &&& self.size < 32
        &&& self.data@.len() == self.size
        &&& self.last == vstd::arithmetic::power2::pow2(self.size as nat)
        &&& self.current <= self.last
    }

    pub fn new(size: u32) -> (r: Self)
        requires
            size < 32,
        ensures
            r.wf(),
            r.size == size,
            r.current == 0,
            r.data@ == Seq::new(size as nat, |i: int| false),
    {
        let mut data: Vec<bool> = Vec::new();
        let mut i: u32 = 0;
        while i < size
            invariant
                i <= size,
                data@ == Seq::new(i as nat, |j: int| false),
            decreases size - i,
        {
            data.push(false);
            i = i + 1;
            proof {
                assert(data@ =~= Seq::new(i as nat, |j: int| false));
            }
        }
        Self { data, size, current: 0, last: pow2(size) }
    }

    /// The assignment of the row that was produced last.
    pub fn get(&self) -> (r: &Vec<bool>)
        ensures
            r@ == self.data@,
    {
        &self.data
    }

    /// Every row has been produced.
    pub fn finished(&self) -> (r: bool)
        ensures
            r == (self.current >= self.last),
    {
        self.current >= self.last
    }

    /// Produces the next row.
    pub fn advance(&mut self)
        requires
            old(self).wf(),
            old(self).current < old(self).last,
        ensures
            final(self).wf(),
            final(self).size == old(self).size,
            final(self).last == old(self).last,
            final(self).current == old(self).current + 1,
            final(self).data@ == row_of(old(self).current as nat, old(self).size as nat),
    {
        let ghost row = row_of(self.current as nat, self.size as nat);
        let mut col: u32 = 0;
        while col < self.size
            invariant
                self.wf(),
                self.size == old(self).size,
                self.last == old(self).last,
                self.current == old(self).current,
                self.current < self.last,
                row == row_of(self.current as nat, self.size as nat),
                col <= self.size,
                forall|c: int| 0 <= c < col ==> self.data@[c] == row[c],
            decreases self.size - col,
        {
            let p = pow2(self.size - col - 1);
            proof {
                vstd::arithmetic::power2::lemma_pow2_pos((self.size - col - 1) as nat);
            }
            self.data.set(col as usize, (self.current / p) % 2 == 0);
            col = col + 1;
        }
        proof {
            assert(self.data@ =~= row);
        }
        self.current = self.current + 1;
    }
}

/// The table cell for a truth value.
pub fn map_bool_cell(val: &bool) -> (r: &'static str)
    ensures
        r@ == if *val {
            seq!['T']
        } else {
            seq!['F']
        },
{
    proof {
        reveal_strlit("T");
        reveal_strlit("F");
    }
    if *val {
        "T"
    } else {
        "F"
    }
}

} // verus!
