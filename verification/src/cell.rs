use vstd::prelude::*;

verus! {

/// Mask selecting the bits that carry information: the digit bits `1` through `9`.
pub const DIGIT_MASK: u16 = 0b1111111110;

/// A per-cell possibility set: the `n`th bit records whether the digit `n`
/// is still a candidate for this cell. Bit `0` and the bits above `9` carry
/// no information and are ignored by every query and by equality.
#[derive(Clone, Copy, Debug, Eq)]
pub struct Cell(pub u16);

impl Cell {
    /// Digit `d` is still a candidate for this cell.
    pub open spec fn possible_spec(self, d: u8) -> bool {
        1 <= d <= 9 && (self.0 >> (d as u16)) & 1u16 == 1u16
    }

    /// How many of the digits `1..n` (exclusive of `n`) are candidates.
    pub open spec fn count_upto(self, n: int) -> nat
        decreases n,
    {
        if n <= 1 {
            0
        } else {
            self.count_upto(n - 1) + if self.possible_spec((n - 1) as u8) {
                1nat
            } else {
                0nat
            }
        }
    }

    /// The cardinality of the candidate set.
    pub open spec fn count_spec(self) -> nat {
        self.count_upto(10)
    }

    /// Digit `d` is the one and only candidate of this cell.
    pub open spec fn sole_spec(self, d: u8) -> bool {
        self.possible_spec(d) && forall|e: u8| self.possible_spec(e) ==> e == d
    }
}

/// Every candidate of `a` is also a candidate of `b`.
pub open spec fn cell_leq(a: Cell, b: Cell) -> bool {
    forall|d: u8| #[trigger] a.possible_spec(d) ==> b.possible_spec(d)
}

proof fn lemma_fixed_bit(num: u16, d: u16)
    requires
        1 <= num <= 9,
        1 <= d <= 9,
    ensures
        ((1u16 << num) >> d) & 1u16 == (if d == num {
            1u16
        } else {
            0u16
        }),
{
    assert(((1u16 << num) >> d) & 1u16 == (if d == num {
        1u16
    } else {
        0u16
    })) by (bit_vector)
        requires
            1 <= num <= 9 && 1 <= d <= 9,
    ;
}

proof fn lemma_set_bit(c: u16, num: u16, d: u16)
    requires
        1 <= num <= 9,
        1 <= d <= 9,
    ensures
        ((c | (1u16 << num)) >> d) & 1u16 == (if d == num {
            1u16
        } else {
            (c >> d) & 1u16
        }),
{
    assert(((c | (1u16 << num)) >> d) & 1u16 == (if d == num {
        1u16
    } else {
        (c >> d) & 1u16
    })) by (bit_vector)
        requires
            1 <= num <= 9 && 1 <= d <= 9,
    ;
}

proof fn lemma_clear_bit(c: u16, num: u16, d: u16)
    requires
        1 <= num <= 9,
        1 <= d <= 9,
    ensures
        ((c & !(1u16 << num)) >> d) & 1u16 == (if d == num {
            0u16
        } else {
            (c >> d) & 1u16
        }),
{
    assert(((c & !(1u16 << num)) >> d) & 1u16 == (if d == num {
        0u16
    } else {
        (c >> d) & 1u16
    })) by (bit_vector)
        requires
            1 <= num <= 9 && 1 <= d <= 9,
    ;
}

impl Cell {
    /// A cell committed to the single digit `num`.
    pub fn fixed(num: u8) -> (r: Self)
        requires
            1 <= num <= 9,
        ensures
            r.0 == 1u16 << (num as u16),
            forall|d: u8| #[trigger] r.possible_spec(d) <==> d == num,
    {
        let r = Cell(1u16 << (num as u16));
        proof {
            assert forall|d: u8| #[trigger] r.possible_spec(d) <==> d == num by {
                if 1 <= d <= 9 {
                    lemma_fixed_bit(num as u16, d as u16);
                }
            }
        }
        r
    }

    /// The fresh state: every digit remains a candidate.
    pub fn any_possible() -> (r: Self)
        ensures
            r.0 == u16::MAX,
            forall|d: u8| 1 <= d <= 9 ==> #[trigger] r.possible_spec(d),
    {
        let r = Cell(u16::MAX);
        proof {
            assert forall|d: u8| 1 <= d <= 9 implies #[trigger] r.possible_spec(d) by {
                assert((u16::MAX >> (d as u16)) & 1u16 == 1u16) by (bit_vector)
                    requires
                        1 <= d <= 9,
                ;
            }
        }
        r
    }

    /// The contradictory state: no digit is a candidate.
    pub fn none_possible() -> (r: Self)
        ensures
            r.0 == 0,
            forall|d: u8| !(#[trigger] r.possible_spec(d)),
    {
        let r = Cell(0);
        proof {
            assert forall|d: u8| !(#[trigger] r.possible_spec(d)) by {
                if 1 <= d <= 9 {
                    assert((0u16 >> (d as u16)) & 1u16 == 0u16) by (bit_vector);
                }
            }
        }
        r
    }

    /// The internal representation without the bits that carry no information.
    ///
    /// Only the bits `1` through `9` are important.
    pub fn important_bits(&self) -> (r: u16)
        ensures
            r == self.0 & DIGIT_MASK,
    {
        self.0 & DIGIT_MASK
    }

    pub fn is_possible(&self, num: u8) -> (r: bool)
        requires
            1 <= num <= 9,
        ensures
            r == self.possible_spec(num),
    {
        (self.0 >> (num as u16)) & 1u16 == 1u16
    }

    pub fn set_possible(&mut self, num: u8, possible: bool)
        requires
            1 <= num <= 9,
        ensures
            possible ==> final(self).0 == (old(self).0 | (1u16 << (num as u16))),
            !possible ==> final(self).0 == (old(self).0 & !(1u16 << (num as u16))),
            forall|d: u8| #[trigger] final(self).possible_spec(d) <==> (if d == num {
                possible
            } else {
                old(self).possible_spec(d)
            }),
    {
        if possible {
            self.0 = self.0 | (1u16 << (num as u16));
        } else {
            self.0 = self.0 & !(1u16 << (num as u16));
        }
        proof {
            assert forall|d: u8|
                #[trigger] self.possible_spec(d) <==> (if d == num {
                    possible
                } else {
                    old(self).possible_spec(d)
                }) by {
                if 1 <= d <= 9 {
                    lemma_set_bit(old(self).0, num as u16, d as u16);
                    lemma_clear_bit(old(self).0, num as u16, d as u16);
                }
            }
        }
    }

    /// The remaining candidate digits, in ascending order.
    pub fn possibilities(&self) -> (r: Vec<u8>)
        ensures
            r@.len() == self.count_spec(),
            forall|k: int| 0 <= k < r@.len() ==> self.possible_spec(#[trigger] r@[k]),
            forall|d: u8| #[trigger] self.possible_spec(d) ==> r@.contains(d),
            forall|k1: int, k2: int| 0 <= k1 < k2 < r@.len() ==> r@[k1] < r@[k2],
    {
        let mut r: Vec<u8> = Vec::new();
        let mut num: u8 = 1;
        while num <= 9
            invariant
                1 <= num <= 10,
                r@.len() == self.count_upto(num as int),
                forall|k: int| 0 <= k < r@.len() ==> self.possible_spec(#[trigger] r@[k]) && r@[k]
                    < num,
                forall|d: u8| d < num && #[trigger] self.possible_spec(d) ==> r@.contains(d),
                forall|k1: int, k2: int| 0 <= k1 < k2 < r@.len() ==> r@[k1] < r@[k2],
            decreases 10 - num,
        {
            if self.is_possible(num) {
                let ghost prev = r@;
                r.push(num);
                proof {
                    assert forall|d: u8| d < num + 1 && #[trigger] self.possible_spec(d) implies r@
                        .contains(d) by {
                        if d < num {
                            let k = choose|k: int| 0 <= k < prev.len() && prev[k] == d;
                            assert(r@[k] == d);
                        } else {
                            assert(r@[r@.len() - 1] == num);
                        }
                    }
                }
            }
            num = num + 1;
        }
        r
    }

    pub fn num_possibilities(&self) -> (r: usize)
        ensures
            r as nat == self.count_spec(),
    {
        self.possibilities().len()
    }

    /// The candidates allowed by both cells at once.
    pub fn both_possible(self, other: Self) -> (r: Self)
        ensures
            r.0 == (self.0 & other.0),
            forall|d: u8| #[trigger] r.possible_spec(d) <==> self.possible_spec(d)
                && other.possible_spec(d),
    {
        let r = Cell(self.0 & other.0);
        proof {
            assert forall|d: u8|
                #[trigger] r.possible_spec(d) <==> self.possible_spec(d) && other.possible_spec(
                d,
            ) by {
                if 1 <= d <= 9 {
                    let (a, b, e) = (self.0, other.0, d as u16);
                    assert((((a & b) >> e) & 1u16 == 1u16) <==> ((a >> e) & 1u16 == 1u16 && (b
                        >> e) & 1u16 == 1u16)) by (bit_vector);
                }
            }
        }
        r
    }

    /// The complementary candidate set.
    pub fn not_possible(self) -> (r: Self)
        ensures
            r.0 == !self.0,
            forall|d: u8| 1 <= d <= 9 ==> (#[trigger] r.possible_spec(d) <==> !self.possible_spec(
                d,
            )),
    {
        let r = Cell(!self.0);
        proof {
            assert forall|d: u8| 1 <= d <= 9 implies (#[trigger] r.possible_spec(d)
                <==> !self.possible_spec(d)) by {
                let (a, e) = (self.0, d as u16);
                assert((((!a) >> e) & 1u16 == 1u16) <==> !((a >> e) & 1u16 == 1u16)) by (bit_vector)
                    requires
                        1 <= e <= 9,
                ;
            }
        }
        r
    }

    /// The candidates allowed by exactly one of the two cells.
    pub fn one_possible(self, other: Self) -> (r: Self)
        ensures
            r.0 == (self.0 ^ other.0),
            forall|d: u8| 1 <= d <= 9 ==> (#[trigger] r.possible_spec(d) <==> (self.possible_spec(
                d,
            ) != other.possible_spec(d))),
    {
        let r = Cell(self.0 ^ other.0);
        proof {
            assert forall|d: u8| 1 <= d <= 9 implies (#[trigger] r.possible_spec(d)
                <==> (self.possible_spec(d) != other.possible_spec(d))) by {
                let (a, b, e) = (self.0, other.0, d as u16);
                assert((((a ^ b) >> e) & 1u16 == 1u16) <==> (((a >> e) & 1u16 == 1u16) != ((b >> e)
                    & 1u16 == 1u16))) by (bit_vector);
            }
        }
        r
    }
}

impl PartialEq for Cell {
    /// Equality compares only the digit bits, never the incidental ones.
    fn eq(&self, other: &Self) -> bool {
        self.important_bits() == other.important_bits()
    }
}

impl vstd::std_specs::cmp::PartialEqSpecImpl for Cell {
    open spec fn obeys_eq_spec() -> bool {
        true
    }

    open spec fn eq_spec(&self, other: &Self) -> bool {
        self.0 & DIGIT_MASK == other.0 & DIGIT_MASK
    }
}

proof fn lemma_count_upto_le(c: Cell, n: int)
    ensures
        c.count_upto(n) <= (if n <= 1 {
            0int
        } else {
            n - 1
        }),
    decreases n,
{
    if n > 1 {
        lemma_count_upto_le(c, n - 1);
    }
}

/// A cell never has more than nine candidates.
pub proof fn lemma_count_le_nine(c: Cell)
    ensures
        c.count_spec() <= 9,
{
    lemma_count_upto_le(c, 10);
}

/// A candidate below `n` forces `count_upto(n)` to be positive.
pub proof fn lemma_count_upto_pos(c: Cell, d: u8, n: int)
    requires
        c.possible_spec(d),
        d < n,
    ensures
        c.count_upto(n) >= 1,
    decreases n,
{
    if d < n - 1 {
        lemma_count_upto_pos(c, d, n - 1);
    }
}

/// Two distinct candidates below `n` force `count_upto(n)` to be at least two.
pub proof fn lemma_count_upto_two(c: Cell, d: u8, e: u8, n: int)
    requires
        c.possible_spec(d),
        c.possible_spec(e),
        d != e,
        d < n,
        e < n,
    ensures
        c.count_upto(n) >= 2,
    decreases n,
{
    if d < n - 1 && e < n - 1 {
        lemma_count_upto_two(c, d, e, n - 1);
    } else if d == n - 1 {
        lemma_count_upto_pos(c, e, n - 1);
    } else {
        lemma_count_upto_pos(c, d, n - 1);
    }
}

/// A cell without candidates below `n` has `count_upto(n)` zero.
pub proof fn lemma_count_upto_none(c: Cell, n: int)
    requires
        forall|d: u8| 1 <= d < n ==> !(#[trigger] c.possible_spec(d)),
    ensures
        c.count_upto(n) == 0,
    decreases n,
{
    if n > 1 {
        lemma_count_upto_none(c, n - 1);
    }
}

/// A nonempty cell has some candidate; a cell of count one has a sole candidate.
pub proof fn lemma_count_facts(c: Cell)
    ensures
        c.count_spec() >= 1 ==> exists|d: u8| c.possible_spec(d),
        c.count_spec() <= 1 ==> forall|d: u8, e: u8|
            c.possible_spec(d) && c.possible_spec(e) ==> d == e,
        c.count_spec() == 1 ==> exists|d: u8| c.sole_spec(d),
{
    if c.count_spec() >= 1 {
        if forall|d: u8| 1 <= d < 10 ==> !(#[trigger] c.possible_spec(d)) {
            lemma_count_upto_none(c, 10);
            assert(false);
        }
        let d = choose|d: u8| 1 <= d < 10 && c.possible_spec(d);
        assert(c.possible_spec(d));
    }
    if c.count_spec() <= 1 {
        assert forall|d: u8, e: u8| c.possible_spec(d) && c.possible_spec(e) implies d == e by {
            if d != e {
                lemma_count_upto_two(c, d, e, 10);
            }
        }
    }
    if c.count_spec() == 1 {
        let d = choose|d: u8| c.possible_spec(d);
        assert(c.sole_spec(d));
    }
}

/// The candidates of a cell committed to `d` are exactly `{d}`.
pub proof fn lemma_fixed_cell_possible(d: u8)
    requires
        1 <= d <= 9,
    ensures
        forall|e: u8| #[trigger] Cell(1u16 << (d as u16)).possible_spec(e) <==> e == d,
{
    assert forall|e: u8| #[trigger] Cell(1u16 << (d as u16)).possible_spec(e) <==> e == d by {
        if 1 <= e <= 9 {
            lemma_fixed_bit(d as u16, e as u16);
        }
    }
}

/// Clearing bit `d` removes exactly the candidate `d`.
pub proof fn lemma_clear_cell_possible(c: Cell, d: u8)
    requires
        1 <= d <= 9,
    ensures
        forall|e: u8| #[trigger] Cell(c.0 & !(1u16 << (d as u16))).possible_spec(e) <==> (e != d
            && c.possible_spec(e)),
{
    assert forall|e: u8|
        #[trigger] Cell(c.0 & !(1u16 << (d as u16))).possible_spec(e) <==> (e != d
            && c.possible_spec(e)) by {
        if 1 <= e <= 9 {
            lemma_clear_bit(c.0, d as u16, e as u16);
        }
    }
}

proof fn lemma_count_upto_sole(c: Cell, d: u8, n: int)
    requires
        n <= 10,
        forall|e: u8| 1 <= e < n && #[trigger] c.possible_spec(e) ==> e == d,
    ensures
        c.count_upto(n) <= 1,
    decreases n,
{
    if n > 1 {
        if c.possible_spec((n - 1) as u8) {
            lemma_count_upto_none(c, n - 1);
        } else {
            lemma_count_upto_sole(c, d, n - 1);
        }
    }
}

/// A cell with a sole candidate has count exactly one.
pub proof fn lemma_sole_count(c: Cell, d: u8)
    requires
        c.sole_spec(d),
    ensures
        c.count_spec() == 1,
{
    lemma_count_upto_pos(c, d, 10);
    lemma_count_upto_sole(c, d, 10);
}

/// Narrowing a cell can only lower its candidate count.
pub proof fn lemma_count_mono(a: Cell, b: Cell, n: int)
    requires
        cell_leq(a, b),
    ensures
        a.count_upto(n) <= b.count_upto(n),
    decreases n,
{
    if n > 1 {
        lemma_count_mono(a, b, n - 1);
    }
}

} // verus!
