//! Cell values (the digits one to nine) and small sets of them.
use vstd::prelude::*;

verus! {

/// One of the nine digits that a cell may hold.
#[derive(Debug, Copy, Clone, PartialEq, Eq, Structural, Hash, PartialOrd, Ord)]
pub enum CellValue {
    One,
    Two,
    Three,
    Four,
    Five,
    Six,
    Seven,
    Eight,
    Nine,
}

impl CellValue {
    /// The digit, from 1 to 9.
    pub open spec fn digit(self) -> int {
        match self {
            CellValue::One => 1,
            CellValue::Two => 2,
            CellValue::Three => 3,
            CellValue::Four => 4,
            CellValue::Five => 5,
            CellValue::Six => 6,
            CellValue::Seven => 7,
            CellValue::Eight => 8,
            CellValue::Nine => 9,
        }
    }

    /// The value whose digit is `d`, for `1 <= d <= 9`.
    pub open spec fn of_digit(d: int) -> CellValue {
        if d <= 1 {
            CellValue::One
        } else if d == 2 {
            CellValue::Two
        } else if d == 3 {
            CellValue::Three
        } else if d == 4 {
            CellValue::Four
        } else if d == 5 {
            CellValue::Five
        } else if d == 6 {
            CellValue::Six
        } else if d == 7 {
            CellValue::Seven
        } else if d == 8 {
            CellValue::Eight
        } else {
            CellValue::Nine
        }
    }

    pub proof fn lemma_digit_range(self)
        ensures
            1 <= self.digit() <= 9,
            CellValue::of_digit(self.digit()) == self,
    {
    }

    /// Converts a digit into a value; digits outside 1..=9 are not values.
    pub fn from_usize(val: usize) -> (r: CellValue)
        requires
            1 <= val <= 9,
        ensures
            r.digit() == val,
            r == CellValue::of_digit(val as int),
    {
        match val {
            1 => CellValue::One,
            2 => CellValue::Two,
            3 => CellValue::Three,
            4 => CellValue::Four,
            5 => CellValue::Five,
            6 => CellValue::Six,
            7 => CellValue::Seven,
            8 => CellValue::Eight,
            _ => CellValue::Nine,
        }
    }

    /// The digit of this value.
    pub fn to_usize(self) -> (r: usize)
        ensures
            r == self.digit(),
    {
        match self {
            CellValue::One => 1,
            CellValue::Two => 2,
            CellValue::Three => 3,
            CellValue::Four => 4,
            CellValue::Five => 5,
            CellValue::Six => 6,
            CellValue::Seven => 7,
            CellValue::Eight => 8,
            CellValue::Nine => 9,
        }
    }
}

/// Every cell value.
pub open spec fn all_values() -> Set<CellValue> {
    Set::new(|v: CellValue| true)
}

/// Number of `true` entries among the first `n` of `s`.
spec fn count_true(s: Seq<bool>, n: int) -> nat
    decreases n,
{
    if n <= 0 {
        0
    } else {
        count_true(s, n - 1) + if s[n - 1] {
            1nat
        } else {
            0nat
        }
    }
}

/// A set of cell values, stored as one flag per digit.
#[derive(Copy, Clone)]
pub struct CellValueSet {
    present: [bool; 9],
}

impl View for CellValueSet {
    type V = Set<CellValue>;

    closed spec fn view(&self) -> Set<CellValue> {
        Set::new(|v: CellValue| self.present@[v.digit() - 1])
    }
}

impl CellValueSet {
    /// The flags of the values whose digit is at most `k`.
    spec fn prefix(self, k: int) -> Set<CellValue> {
        Set::new(|v: CellValue| v.digit() <= k && self.present@[v.digit() - 1])
    }

    proof fn lemma_prefix(self, k: int)
        requires
            0 <= k <= 9,
        ensures
            self.prefix(k).finite(),
            self.prefix(k).len() == count_true(self.present@, k),
        decreases k,
    {
        if k == 0 {
            assert(self.prefix(0) =~= Set::empty());
        } else {
            self.lemma_prefix(k - 1);
            let w = CellValue::of_digit(k);
            assert(w.digit() == k);
            if self.present@[k - 1] {
                assert(self.prefix(k) =~= self.prefix(k - 1).insert(w));
                assert(!self.prefix(k - 1).contains(w));
            } else {
                assert(self.prefix(k) =~= self.prefix(k - 1));
            }
        }
    }

    proof fn lemma_len_count(self)
        ensures
            self@.finite(),
            self@.len() == count_true(self.present@, 9),
            self@.len() <= 9,
    {
        self.lemma_prefix(9);
        assert forall|v: CellValue| #![auto] self@.contains(v) == self.prefix(9).contains(v) by {
            v.lemma_digit_range();
        }
        assert(self@ =~= self.prefix(9));
        lemma_count_true_le(self.present@, 9);
    }

    /// The set is finite and has at most nine members.
    pub proof fn lemma_len(self)
        ensures
            self@.finite(),
            self@.len() <= 9,
    {
        self.lemma_len_count();
    }

    /// A set with a single member is that member alone.
    pub proof fn lemma_singleton(self, v: CellValue)
        requires
            self@.len() == 1,
            self@.contains(v),
        ensures
            self@ == set![v],
    {
        self.lemma_len();
        assert forall|w: CellValue| self@.contains(w) implies w == v by {
            if w != v {
                let two = set![v, w];
                assert(two.subset_of(self@));
                vstd::set_lib::lemma_len_subset(two, self@);
                assert(two.len() == 2) by {
                    assert(set![v].len() == 1);
                }
            }
        }
        assert(self@ =~= set![v]);
    }

    /// The empty set.
    pub fn new() -> (r: CellValueSet)
        ensures
            r@ == Set::<CellValue>::empty(),
    {
        let r = CellValueSet { present: [false; 9] };
        assert(r@ =~= Set::<CellValue>::empty());
        r
    }

    /// Whether `v` is a member.
    pub fn contains(&self, v: CellValue) -> (r: bool)
        ensures
            r == self@.contains(v),
    {
        let i = v.to_usize() - 1;
        self.present[i]
    }

    /// Adds `v`.
    pub fn insert(&mut self, v: CellValue)
        ensures
            final(self)@ == old(self)@.insert(v),
    {
        let i = v.to_usize() - 1;
        self.present[i] = true;
        proof {
            assert forall|w: CellValue| #![auto] final(self)@.contains(w) == old(self)@.insert(v).contains(w) by {
                w.lemma_digit_range();
                v.lemma_digit_range();
            }
        }
        assert(final(self)@ =~= old(self)@.insert(v));
    }

    /// Takes `v` out.
    pub fn remove(&mut self, v: CellValue)
        ensures
            final(self)@ == old(self)@.remove(v),
    {
        let i = v.to_usize() - 1;
        self.present[i] = false;
        proof {
            assert forall|w: CellValue| #![auto] final(self)@.contains(w) == old(self)@.remove(v).contains(w) by {
                w.lemma_digit_range();
                v.lemma_digit_range();
            }
        }
        assert(final(self)@ =~= old(self)@.remove(v));
    }

    /// The number of members.
    pub fn len(&self) -> (r: usize)
        ensures
            r == self@.len(),
            r <= 9,
    {
        let mut n: usize = 0;
        let mut i: usize = 0;
        while i < 9
            invariant
                i <= 9,
                n == count_true(self.present@, i as int),
                n <= i,
            decreases 9 - i,
        {
            if self.present[i] {
                n = n + 1;
            }
            i = i + 1;
        }
        proof {
            self.lemma_len_count();
        }
        n
    }

    /// The values in `self` or in `other`.
    pub fn union(&self, other: &CellValueSet) -> (r: CellValueSet)
        ensures
            r@ == self@.union(other@),
    {
        let mut r = CellValueSet { present: [false; 9] };
        let mut i: usize = 0;
        while i < 9
            invariant
                i <= 9,
                forall|j: int| 0 <= j < 9 ==> #[trigger] r.present@[j] == (j < i && (self.present@[j] || other.present@[j])),
            decreases 9 - i,
        {
            r.present[i] = self.present[i] || other.present[i];
            i = i + 1;
        }
        assert forall|w: CellValue| #![auto] r@.contains(w) == self@.union(other@).contains(w) by {
            w.lemma_digit_range();
        }
        assert(r@ =~= self@.union(other@));
        r
    }

    /// The values in `self` and not in `other`.
    pub fn difference(&self, other: &CellValueSet) -> (r: CellValueSet)
        ensures
            r@ == self@.difference(other@),
    {
        let mut r = CellValueSet { present: [false; 9] };
        let mut i: usize = 0;
        while i < 9
            invariant
                i <= 9,
                forall|j: int| 0 <= j < 9 ==> #[trigger] r.present@[j] == (j < i && self.present@[j] && !other.present@[j]),
            decreases 9 - i,
        {
            r.present[i] = self.present[i] && !other.present[i];
            i = i + 1;
        }
        assert forall|w: CellValue| #![auto] r@.contains(w) == self@.difference(other@).contains(w) by {
            w.lemma_digit_range();
        }
        assert(r@ =~= self@.difference(other@));
        r
    }

    /// The values that are not members.
    pub fn complement(&self) -> (r: CellValueSet)
        ensures
            r@ == all_values().difference(self@),
    {
        let mut r = CellValueSet { present: [false; 9] };
        let mut i: usize = 0;
        while i < 9
            invariant
                i <= 9,
                forall|j: int| 0 <= j < 9 ==> #[trigger] r.present@[j] == (j < i && !self.present@[j]),
            decreases 9 - i,
        {
            r.present[i] = !self.present[i];
            i = i + 1;
        }
        assert forall|w: CellValue| #![auto] r@.contains(w) == all_values().difference(self@).contains(w) by {
            w.lemma_digit_range();
        }
        assert(r@ =~= all_values().difference(self@));
        r
    }

    /// The smallest member, if any.
    pub fn first(&self) -> (r: Option<CellValue>)
        ensures
            r is None <==> self@ == Set::<CellValue>::empty(),
            r matches Some(v) ==> self@.contains(v) && forall|w: CellValue| #[trigger] self@.contains(w) ==> v.digit() <= w.digit(),
    {
        let mut i: usize = 0;
        while i < 9
            invariant
                i <= 9,
                forall|j: int| 0 <= j < i ==> !#[trigger] self.present@[j],
            decreases 9 - i,
        {
            if self.present[i] {
                let v = CellValue::from_usize(i + 1);
                assert forall|w: CellValue| #[trigger] self@.contains(w) implies v.digit() <= w.digit() by {
                    w.lemma_digit_range();
                }
                assert(self@.contains(v));
                return Some(v);
            }
            i = i + 1;
        }
        assert forall|w: CellValue| !#[trigger] self@.contains(w) by {
            w.lemma_digit_range();
        }
        assert(self@ =~= Set::<CellValue>::empty());
        None
    }

    /// Whether both sets have the same members.
    pub fn same_members(&self, other: &CellValueSet) -> (r: bool)
        ensures
            r == (self@ == other@),
    {
        let mut i: usize = 0;
        while i < 9
            invariant
                i <= 9,
                forall|j: int| 0 <= j < i ==> #[trigger] self.present@[j] == other.present@[j],
            decreases 9 - i,
        {
            if self.present[i] != other.present[i] {
                let v = CellValue::from_usize(i + 1);
                assert(self@.contains(v) != other@.contains(v));
                return false;
            }
            i = i + 1;
        }
        assert forall|w: CellValue| #![auto] self@.contains(w) == other@.contains(w) by {
            w.lemma_digit_range();
        }
        assert(self@ =~= other@);
        true
    }

    /// The members in ascending order.
    pub fn to_vec(&self) -> (r: Vec<CellValue>)
        ensures
            r@.to_set() == self@,
            forall|i: int, j: int| 0 <= i < j < r@.len() ==> r@[i].digit() < r@[j].digit(),
    {
        let mut r: Vec<CellValue> = Vec::new();
        let mut i: usize = 0;
        while i < 9
            invariant
                i <= 9,
                forall|k: int| 0 <= k < r@.len() ==> #[trigger] r@[k].digit() <= i && self@.contains(r@[k]),
                forall|w: CellValue| #[trigger] self@.contains(w) && w.digit() <= i ==> r@.contains(w),
                forall|a: int, b: int| 0 <= a < b < r@.len() ==> r@[a].digit() < r@[b].digit(),
            decreases 9 - i,
        {
            if self.present[i] {
                let v = CellValue::from_usize(i + 1);
                proof {
                    assert forall|w: CellValue| #[trigger] self@.contains(w) && w.digit() <= i + 1 implies r@.push(v).contains(w) by {
                        w.lemma_digit_range();
                        if w.digit() == i + 1 {
                            assert(r@.push(v)[r@.len() as int] == w);
                        } else {
                            let k = choose|k: int| 0 <= k < r@.len() && r@[k] == w;
                            assert(r@.push(v)[k] == w);
                        }
                    }
                }
                r.push(v);
            } else {
                proof {
                    assert forall|w: CellValue| #[trigger] self@.contains(w) && w.digit() <= i + 1 implies r@.contains(w) by {
                        w.lemma_digit_range();
                    }
                }
            }
            i = i + 1;
        }
        assert forall|w: CellValue| #![auto] r@.to_set().contains(w) == self@.contains(w) by {
            w.lemma_digit_range();
            if r@.contains(w) {
                let k = choose|k: int| 0 <= k < r@.len() && r@[k] == w;
            }
        }
        assert(r@.to_set() =~= self@);
        r
    }
}

proof fn lemma_count_true_le(s: Seq<bool>, n: int)
    requires
        n >= 0,
    ensures
        count_true(s, n) <= n,
    decreases n,
{
    if n > 0 {
        lemma_count_true_le(s, n - 1);
    }
}

} // verus!
