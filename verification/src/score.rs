use vstd::prelude::*;

verus! {

/// A length-k vector of signed counters, one per run length. Entry `i` counts
/// live windows holding `i + 1` tokens of one colour (positive for `Red`,
/// negative for `Yellow`); entry `k - 1` being nonzero signals a completed
/// k-in-a-row. Ordered by comparing entries from the most significant
/// (index `k - 1`) downward.
#[derive(Debug)]
pub struct Score {
    values: Vec<i32>,
}

impl View for Score {
    type V = Seq<i32>;

    closed spec fn view(&self) -> Seq<i32> {
        self.values@
    }
}

/// Reverse-lexicographic strict order on the entries below index `n`:
/// the highest unequal index decides.
pub open spec fn spec_lt_below(a: Seq<i32>, b: Seq<i32>, n: int) -> bool
    decreases n,
{
    if n <= 0 {
        false
    } else if a[n - 1] != b[n - 1] {
        a[n - 1] < b[n - 1]
    } else {
        spec_lt_below(a, b, n - 1)
    }
}

/// The strict total order on score vectors of equal length: entries are
/// compared from index `len - 1` down to 0, and the first unequal pair decides.
pub open spec fn spec_lt(a: Seq<i32>, b: Seq<i32>) -> bool {
    spec_lt_below(a, b, a.len() as int)
}

impl Score {
    /// Builds a score vector from its entries.
    pub fn from_values(values: Vec<i32>) -> (s: Score)
        ensures
            s@ == values@,
    {
        Score { values }
    }

    /// A fresh all-zero vector of length `k`.
    pub fn zero(k: usize) -> (s: Score)
        ensures
            s@.len() == k,
            forall|i: int| 0 <= i < k ==> s@[i] == 0i32,
    {
        let mut values: Vec<i32> = Vec::new();
        let mut j: usize = 0;
        while j < k
            invariant
                j <= k,
                values@.len() == j,
                forall|i: int| 0 <= i < j ==> values@[i] == 0i32,
            decreases k - j,
        {
            values.push(0i32);
            j = j + 1;
        }
        Score { values }
    }

    /// A vector of length `k` holding `v` in every entry.
    pub fn uniform(k: usize, v: i32) -> (s: Score)
        ensures
            s@.len() == k,
            forall|i: int| 0 <= i < k ==> s@[i] == v,
    {
        let mut values: Vec<i32> = Vec::new();
        let mut j: usize = 0;
        while j < k
            invariant
                j <= k,
                values@.len() == j,
                forall|i: int| 0 <= i < j ==> values@[i] == v,
            decreases k - j,
        {
            values.push(v);
            j = j + 1;
        }
        Score { values }
    }

    pub fn len(&self) -> (n: usize)
        ensures
            n == self@.len(),
    {
        self.values.len()
    }

    pub fn get(&self, i: usize) -> (v: i32)
        requires
            i < self@.len(),
        ensures
            v == self@[i as int],
    {
        self.values[i]
    }

    pub(crate) fn set(&mut self, i: usize, v: i32)
        requires
            i < old(self)@.len(),
        ensures
            final(self)@ == old(self)@.update(i as int, v),
    {
        self.values.set(i, v);
    }

    /// Strict comparison in the reverse-lexicographic order.
    pub fn lt(&self, other: &Score) -> (r: bool)
        requires
            self@.len() == other@.len(),
        ensures
            r == spec_lt(self@, other@),
    {
        let mut n: usize = self.values.len();
        while n > 0
            invariant
                n <= self@.len(),
                self@.len() == other@.len(),
                spec_lt(self@, other@) == spec_lt_below(self@, other@, n as int),
            decreases n,
        {
            let a = self.values[n - 1];
            let b = other.values[n - 1];
            if a != b {
                return a < b;
            }
            n = n - 1;
        }
        false
    }
}

impl Clone for Score {
    /// A clone carries exactly the same entries.
    fn clone(&self) -> (s: Self)
        ensures
            s@ == self@,
    {
        let mut values: Vec<i32> = Vec::new();
        let mut j: usize = 0;
        while j < self.values.len()
            invariant
                j <= self@.len(),
                values@ =~= self@.subrange(0, j as int),
            decreases self@.len() - j,
        {
            values.push(self.values[j]);
            j = j + 1;
        }
        proof {
            assert(values@ =~= self@);
        }
        Score { values }
    }
}

impl PartialEq for Score {
    fn eq(&self, other: &Score) -> (r: bool) {
        if self.values.len() != other.values.len() {
            return false;
        }
        let mut j: usize = 0;
        while j < self.values.len()
            invariant
                j <= self@.len(),
                self@.len() == other@.len(),
                forall|i: int| 0 <= i < j ==> self@[i] == other@[i],
            decreases self@.len() - j,
        {
            if self.values[j] != other.values[j] {
                return false;
            }
            j = j + 1;
        }
        proof {
            assert(self@ =~= other@);
        }
        true
    }
}

impl Eq for Score {

}

impl vstd::std_specs::cmp::PartialEqSpecImpl for Score {
    open spec fn obeys_eq_spec() -> bool {
        true
    }

    open spec fn eq_spec(&self, other: &Score) -> bool {
        self@ == other@
    }
}

/// Exactly one of `a < b`, `a == b`, `b < a` holds for vectors of equal
/// length: the order is total and strict.
pub proof fn lemma_order_total(a: Seq<i32>, b: Seq<i32>)
    requires
        a.len() == b.len(),
    ensures
        spec_lt(a, b) || spec_lt(b, a) || a =~= b,
        spec_lt(a, b) ==> !spec_lt(b, a) && !(a =~= b),
        spec_lt(b, a) ==> !spec_lt(a, b) && !(a =~= b),
        a =~= b ==> !spec_lt(a, b) && !spec_lt(b, a),
{
    lemma_order_total_below(a, b, a.len() as int);
    if !spec_lt(a, b) && !spec_lt(b, a) {
        assert forall|i: int| 0 <= i < a.len() implies a[i] == b[i] by {
            lemma_equal_below_entries(a, b, a.len() as int, i);
        }
    }
    if a =~= b {
        lemma_equal_below(a, b, a.len() as int);
    }
}

proof fn lemma_order_total_below(a: Seq<i32>, b: Seq<i32>, n: int)
    ensures
        spec_lt_below(a, b, n) ==> !spec_lt_below(b, a, n),
    decreases n,
{
    if n > 0 {
        lemma_order_total_below(a, b, n - 1);
    }
}

/// If neither is below the other when comparing below `n`, the entries
/// below `n` agree.
proof fn lemma_equal_below_entries(a: Seq<i32>, b: Seq<i32>, n: int, i: int)
    requires
        !spec_lt_below(a, b, n),
        !spec_lt_below(b, a, n),
        0 <= i < n,
    ensures
        a[i] == b[i],
    decreases n,
{
    if i < n - 1 {
        lemma_equal_below_entries(a, b, n - 1, i);
    }
}

/// Pointwise equal entries below `n` mean neither compares below the other.
proof fn lemma_equal_below(a: Seq<i32>, b: Seq<i32>, n: int)
    requires
        forall|i: int| 0 <= i < n ==> a[i] == b[i],
    ensures
        !spec_lt_below(a, b, n),
        !spec_lt_below(b, a, n),
    decreases n,
{
    if n > 0 {
        lemma_equal_below(a, b, n - 1);
    }
}


/// The top entry decides on its own: whatever the lower entries hold, a
/// vector whose most significant entry is smaller is smaller. This is why the
/// near-extreme win sentinels dominate every heuristic score, whose entries
/// stay far from the `i32` limits.
pub proof fn lemma_top_entry_decides(a: Seq<i32>, b: Seq<i32>)
    requires
        a.len() == b.len(),
        a.len() >= 1,
        a[a.len() - 1] < b[b.len() - 1],
    ensures
        spec_lt(a, b),
{
}

/// The order is transitive.
pub proof fn lemma_order_transitive(a: Seq<i32>, b: Seq<i32>, c: Seq<i32>)
    requires
        a.len() == b.len(),
        b.len() == c.len(),
        spec_lt(a, b),
        spec_lt(b, c),
    ensures
        spec_lt(a, c),
{
    lemma_transitive_below(a, b, c, a.len() as int);
}

proof fn lemma_transitive_below(a: Seq<i32>, b: Seq<i32>, c: Seq<i32>, n: int)
    requires
        spec_lt_below(a, b, n),
        spec_lt_below(b, c, n),
    ensures
        spec_lt_below(a, c, n),
    decreases n,
{
    if n > 0 {
        if a[n - 1] == b[n - 1] && b[n - 1] == c[n - 1] {
            lemma_transitive_below(a, b, c, n - 1);
        }
    }
}

} // verus!
