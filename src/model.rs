//! The data the simulation reads: traits with their frequencies, the
//! conditional-probability matrix, and the sampling mode.

use vstd::prelude::*;

verus! {

/// Fixed-point unit of every probability and frequency: one millionth.
pub const SCALE: u32 = 1_000_000;

/// A nonnegative fraction `num / den`.
#[derive(Clone, Copy, Debug, PartialEq, Eq, Structural)]
pub struct Ratio {
    pub num: u64,
    pub den: u64,
}

/// A named binary attribute and its frequency in a population, in millionths.
pub struct Trait {
    pub name: String,
    pub frequency: u32,
}

/// The frequencies of a trait table, index by index.
pub open spec fn frequencies(traits: Seq<Trait>) -> Seq<u32> {
    traits.map_values(|t: Trait| t.frequency)
}

/// The names of a trait table, index by index.
pub open spec fn names_of(traits: Seq<Trait>) -> Seq<Seq<char>> {
    traits.map_values(|t: Trait| t.name@)
}

/// How many traits one synthetic individual tries to retain.
#[derive(Clone, Copy, Debug, PartialEq, Eq, Structural)]
pub enum Mode {
    Top5,
    Top10,
}

impl Mode {
    pub open spec fn spec_trait_count(self) -> nat {
        match self {
            Mode::Top5 => 5,
            Mode::Top10 => 10,
        }
    }

    /// The number of traits this mode retains at most.
    pub fn trait_count(&self) -> (r: usize)
        ensures
            r == self.spec_trait_count(),
    {
        match self {
            Mode::Top5 => 5,
            Mode::Top10 => 10,
        }
    }

    /// The mode that retains `count` traits; only 5 and 10 name a mode.
    pub fn from_trait_count(count: usize) -> (r: Option<Mode>)
        ensures
            r is Some <==> (count == 5 || count == 10),
            r matches Some(m) ==> m.spec_trait_count() == count,
    {
        if count == 5 {
            Some(Mode::Top5)
        } else if count == 10 {
            Some(Mode::Top10)
        } else {
            None
        }
    }
}

/// Why a matrix was refused.
#[derive(Clone, Copy, Debug, PartialEq, Eq, Structural)]
pub enum MatrixError {
    /// A row's length differs from the number of rows.
    NotSquare,
    /// A cell holds more than [`SCALE`], a probability above one.
    OutOfRange,
}

/// A square table of probabilities in millionths: entry `(i, j)` is the
/// probability that candidate `j` is retained given that `i` already was.
pub struct ProbMatrix {
    rows: Vec<Vec<u32>>,
}

/// A square table whose every entry is a probability.
pub open spec fn valid_matrix(m: Seq<Seq<u32>>) -> bool {
    &&& forall|i: int| 0 <= i < m.len() ==> #[trigger] m[i].len() == m.len()
    &&& forall|i: int, j: int|
        0 <= i < m.len() && 0 <= j < m.len() ==> #[trigger] m[i][j] <= SCALE
}

/// The entries of a table of rows.
pub open spec fn rows_of(rows: Seq<Vec<u32>>) -> Seq<Seq<u32>> {
    rows.map_values(|r: Vec<u32>| r@)
}

impl View for ProbMatrix {
    type V = Seq<Seq<u32>>;

    closed spec fn view(&self) -> Seq<Seq<u32>> {
        rows_of(self.rows@)
    }
}

impl ProbMatrix {
    /// The number of traits the matrix relates.
    pub open spec fn spec_dim(&self) -> nat {
        self@.len()
    }

    pub closed spec fn wf(&self) -> bool {
        valid_matrix(self@)
    }

    /// Every matrix that can be built is valid.
    pub proof fn lemma_wf(&self)
        requires
            self.wf(),
        ensures
            valid_matrix(self@),
    {
    }

    /// Builds a matrix from its rows; refused unless square with every entry
    /// at most [`SCALE`].
    pub fn new(rows: Vec<Vec<u32>>) -> (r: Result<ProbMatrix, MatrixError>)
        ensures
            r is Ok <==> valid_matrix(rows_of(rows@)),
            r matches Ok(m) ==> m.wf() && m@ == rows_of(rows@),
            r == Err::<ProbMatrix, MatrixError>(MatrixError::NotSquare) <==> exists|i: int|
                0 <= i < rows@.len() && #[trigger] rows@[i]@.len() != rows@.len(),
    {
        let n = rows.len();
        let mut i: usize = 0;
        while i < n
            invariant
                n == rows@.len(),
                i <= n,
                forall|k: int| 0 <= k < i ==> #[trigger] rows@[k]@.len() == n,
            decreases n - i,
        {
            if rows[i].len() != n {
                assert(rows_of(rows@)[i as int] == rows@[i as int]@);
                return Err(MatrixError::NotSquare);
            }
            i = i + 1;
        }
        let ghost dv = rows_of(rows@);
        assert(forall|k: int| 0 <= k < n ==> #[trigger] dv[k] == rows@[k]@);
        let mut i: usize = 0;
        while i < n
            invariant
                n == rows@.len(),
                dv == rows_of(rows@),
                i <= n,
                forall|k: int| 0 <= k < n ==> #[trigger] rows@[k]@.len() == n,
                forall|k: int| 0 <= k < n ==> #[trigger] dv[k] == rows@[k]@,
                forall|a: int, b: int| 0 <= a < i && 0 <= b < n ==> #[trigger] dv[a][b] <= SCALE,
            decreases n - i,
        {
            let mut j: usize = 0;
            while j < n
                invariant
                    n == rows@.len(),
                    i < n,
                    j <= n,
                    rows@[i as int]@.len() == n,
                    dv == rows_of(rows@),
                    forall|k: int| 0 <= k < n ==> #[trigger] rows@[k]@.len() == n,
                    forall|k: int| 0 <= k < n ==> #[trigger] dv[k] == rows@[k]@,
                    forall|b: int| 0 <= b < j ==> #[trigger] dv[i as int][b] <= SCALE,
                decreases n - j,
            {
                if rows[i][j] > SCALE {
                    assert(dv[i as int][j as int] > SCALE);
                    assert(!valid_matrix(dv));
                    assert(forall|k: int| 0 <= k < n ==> #[trigger] rows@[k]@.len() == n);
                    return Err(MatrixError::OutOfRange);
                }
                j = j + 1;
            }
            i = i + 1;
        }
        assert(valid_matrix(dv));
        Ok(ProbMatrix { rows })
    }

    /// The number of traits the matrix relates.
    pub fn dim(&self) -> (r: usize)
        ensures
            r == self.spec_dim(),
    {
        self.rows.len()
    }

    /// Entry `(i, j)`.
    pub fn get(&self, i: usize, j: usize) -> (r: u32)
        requires
            self.wf(),
            i < self.spec_dim(),
            j < self.spec_dim(),
        ensures
            r == self@[i as int][j as int],
            r <= SCALE,
    {
        assert(self@[i as int] == self.rows@[i as int]@);
        self.rows[i][j]
    }
}

/// Every target name names a reference trait, and every reference frequency
/// is a probability.
pub open spec fn comparable(reference: Seq<Trait>, target: Seq<Trait>) -> bool {
    &&& forall|j: int|
        0 <= j < target.len() ==> names_of(reference).contains(#[trigger] target[j].name@)
    &&& forall|i: int| 0 <= i < reference.len() ==> #[trigger] reference[i].frequency <= SCALE
}

/// Why a pair of trait tables cannot be simulated against a matrix.
#[derive(Clone, Copy, Debug, PartialEq, Eq, Structural)]
pub enum TableError {
    /// The reference table's length differs from the matrix dimension.
    ReferenceSize,
    /// The target table's length differs from the matrix dimension.
    TargetSize,
    /// A reference frequency exceeds one.
    FrequencyRange,
    /// A target trait's name names no reference trait.
    UnknownTrait,
}

/// Checks that both tables are index-aligned with the matrix, that the
/// reference frequencies are probabilities, and that every target trait is
/// found in the reference table; the errors are tried in that order.
pub fn check_tables(m: &ProbMatrix, reference: &Vec<Trait>, target: &Vec<Trait>) -> (r: Result<
    (),
    TableError,
>)
    ensures
        r is Ok <==> reference@.len() == m.spec_dim() && target@.len() == m.spec_dim() && comparable(
            reference@,
            target@,
        ),
        r == Err::<(), TableError>(TableError::ReferenceSize) <==> reference@.len() != m.spec_dim(),
        r == Err::<(), TableError>(TableError::TargetSize) <==> reference@.len() == m.spec_dim()
            && target@.len() != m.spec_dim(),
        r == Err::<(), TableError>(TableError::FrequencyRange) <==> reference@.len() == m.spec_dim()
            && target@.len() == m.spec_dim() && exists|i: int|
            0 <= i < reference@.len() && #[trigger] reference@[i].frequency > SCALE,
{
    if reference.len() != m.dim() {
        return Err(TableError::ReferenceSize);
    }
    if target.len() != m.dim() {
        return Err(TableError::TargetSize);
    }
    let mut i: usize = 0;
    while i < reference.len()
        invariant
            reference@.len() == m.spec_dim(),
            target@.len() == m.spec_dim(),
            i <= reference@.len(),
            forall|k: int| 0 <= k < i ==> #[trigger] reference@[k].frequency <= SCALE,
        decreases reference@.len() - i,
    {
        if reference[i].frequency > SCALE {
            return Err(TableError::FrequencyRange);
        }
        i = i + 1;
    }
    let mut j: usize = 0;
    while j < target.len()
        invariant
            reference@.len() == m.spec_dim(),
            target@.len() == m.spec_dim(),
            forall|k: int| 0 <= k < reference@.len() ==> #[trigger] reference@[k].frequency <= SCALE,
            j <= target@.len(),
            forall|q: int| 0 <= q < j ==> names_of(reference@).contains(#[trigger] target@[q].name@),
        decreases target@.len() - j,
    {
        let mut k: usize = 0;
        let mut found = false;
        while k < reference.len() && !found
            invariant
                j < target@.len(),
                k <= reference@.len(),
                found ==> names_of(reference@).contains(target@[j as int].name@),
                !found ==> forall|q: int| 0 <= q < k ==> #[trigger] reference@[q].name@ != target@[j as int].name@,
            decreases reference@.len() - k, !found as int,
        {
            if reference[k].name == target[j].name {
                assert(names_of(reference@)[k as int] == target@[j as int].name@);
                found = true;
            } else {
                k = k + 1;
            }
        }
        if !found {
            assert forall|q: int| 0 <= q < names_of(reference@).len() implies #[trigger] names_of(
                reference@,
            )[q] != target@[j as int].name@ by {
                assert(names_of(reference@)[q] == reference@[q].name@);
            }
            assert(!names_of(reference@).contains(target@[j as int].name@));
            assert(!comparable(reference@, target@));
            return Err(TableError::UnknownTrait);
        }
        j = j + 1;
    }
    Ok(())
}

} // verus!
