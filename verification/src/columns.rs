//! Columns of numbers and of lists of numbers, with nulls.
use vstd::prelude::*;

verus! {

/// A column of numbers. Where the validity is there, it says which of them are not null.
#[derive(Debug)]
pub struct ScalarColumn<T> {
    pub values: Vec<T>,
    pub validity: Option<Vec<bool>>,
}

/// What the lists of a column hold: numbers, or something else of which only the count matters.
#[derive(Debug)]
pub enum ListValues<T> {
    Scalars(ScalarColumn<T>),
    Other { len: usize },
}

/// A column of lists. List `i` holds the values from `offsets[i]` up to `offsets[i + 1]`.
#[derive(Debug)]
pub struct ListColumn<T> {
    pub offsets: Vec<i64>,
    pub values: ListValues<T>,
    pub validity: Option<Vec<bool>>,
}

/// Entry `i` is not null.
pub open spec fn valid_at(validity: Option<Vec<bool>>, i: int) -> bool {
    match validity {
        Some(mask) => mask@[i],
        None => true,
    }
}

/// The validity, where it is there, has an entry for each of `len` rows.
pub open spec fn covers(validity: Option<Vec<bool>>, len: nat) -> bool {
    match validity {
        Some(mask) => mask@.len() == len,
        None => true,
    }
}

fn covers_rows(validity: &Option<Vec<bool>>, len: usize) -> (r: bool)
    ensures
        r == covers(*validity, len as nat),
{
    match validity {
        Some(mask) => mask.len() == len,
        None => true,
    }
}

fn is_valid_at(validity: &Option<Vec<bool>>, i: usize) -> (r: bool)
    requires
        match *validity {
            Some(mask) => i < mask@.len(),
            None => true,
        },
    ensures
        r == valid_at(*validity, i as int),
{
    match validity {
        Some(mask) => mask[i],
        None => true,
    }
}

impl<T> ScalarColumn<T> {
    pub open spec fn wf(self) -> bool {
        covers(self.validity, self.values@.len())
    }

    pub open spec fn cell(self, i: int) -> Option<T> {
        if valid_at(self.validity, i) {
            Some(self.values@[i])
        } else {
            None
        }
    }

    /// The column of the given parts, where they fit.
    pub fn try_new(values: Vec<T>, validity: Option<Vec<bool>>) -> (r: Option<Self>)
        ensures
            match r {
                Some(column) => column.wf() && column == (ScalarColumn { values, validity }),
                None => !covers(validity, values@.len()),
            },
    {
        if covers_rows(&validity, values.len()) {
            Some(ScalarColumn { values, validity })
        } else {
            None
        }
    }

    pub fn len(&self) -> (r: usize)
        ensures
            r == self.values@.len(),
    {
        self.values.len()
    }

    pub fn is_valid(&self, i: usize) -> (r: bool)
        requires
            self.wf(),
            i < self.values@.len(),
        ensures
            r == valid_at(self.validity, i as int),
    {
        is_valid_at(&self.validity, i)
    }

    /// Whether there is a null in the column.
    pub fn has_nulls(&self) -> (r: bool)
        requires
            self.wf(),
        ensures
            r == exists|i: int| 0 <= i < self.values@.len() && self.cell(i) is None,
    {
        let mut i: usize = 0;
        while i < self.values.len()
            invariant
                self.wf(),
                i <= self.values@.len(),
                forall|k: int| 0 <= k < i ==> self.cell(k) is Some,
            decreases self.values@.len() - i,
        {
            if !self.is_valid(i) {
                assert(self.cell(i as int) is None);
                return true;
            }
            i += 1;
        }
        false
    }
}

impl<T> ListValues<T> {
    pub open spec fn len(self) -> nat {
        match self {
            ListValues::Scalars(column) => column.values@.len(),
            ListValues::Other { len } => len as nat,
        }
    }

    pub open spec fn wf(self) -> bool {
        match self {
            ListValues::Scalars(column) => column.wf(),
            ListValues::Other { .. } => true,
        }
    }
}

/// The offsets start at zero or later, never fall and end within `len` values.
pub open spec fn are_offsets(offsets: Seq<i64>, len: nat) -> bool {
    &&& offsets.len() > 0
    &&& 0 <= offsets[0]
    &&& forall|i: int, j: int| 0 <= i <= j < offsets.len() ==> offsets[i] <= offsets[j]
    &&& offsets[offsets.len() - 1] <= len
}

impl<T> ListColumn<T> {
    pub open spec fn rows(self) -> nat {
        (self.offsets@.len() - 1) as nat
    }

    pub open spec fn wf(self) -> bool {
        &&& self.values.wf()
        &&& are_offsets(self.offsets@, self.values.len())
        &&& covers(self.validity, self.rows())
    }

    /// How many values list `i` has.
    pub open spec fn width(self, i: int) -> nat {
        (self.offsets@[i + 1] - self.offsets@[i]) as nat
    }

    /// The numbers of list `i`, null or not.
    pub open spec fn items(self, i: int) -> Seq<T> {
        match self.values {
            ListValues::Scalars(column) => column.values@.subrange(
                self.offsets@[i] as int,
                self.offsets@[i + 1] as int,
            ),
            ListValues::Other { .. } => Seq::empty(),
        }
    }

    pub open spec fn row(self, i: int) -> Option<Seq<T>> {
        if valid_at(self.validity, i) {
            Some(self.items(i))
        } else {
            None
        }
    }

    /// The column of the given parts, where they fit.
    pub fn try_new(
        offsets: Vec<i64>,
        values: ListValues<T>,
        validity: Option<Vec<bool>>,
    ) -> (r: Option<Self>)
        ensures
            match r {
                Some(column) => column.wf() && column == (ListColumn { offsets, values, validity }),
                None => !(ListColumn { offsets, values, validity }).wf(),
            },
    {
        if offsets.len() == 0 || offsets[0] < 0 {
            return None;
        }
        let mut i: usize = 1;
        while i < offsets.len()
            invariant
                1 <= i <= offsets@.len(),
                forall|k: int, l: int| 0 <= k <= l < i ==> offsets@[k] <= offsets@[l],
            decreases offsets@.len() - i,
        {
            if offsets[i] < offsets[i - 1] {
                return None;
            }
            i += 1;
        }
        let (len, values_fit): (usize, bool) = match &values {
            ListValues::Scalars(column) => (
                column.len(),
                covers_rows(&column.validity, column.len()),
            ),
            ListValues::Other { len } => (*len, true),
        };
        let last: i64 = offsets[offsets.len() - 1];
        if last as u64 > len as u64 {
            return None;
        }
        if values_fit && covers_rows(&validity, offsets.len() - 1) {
            Some(ListColumn { offsets, values, validity })
        } else {
            None
        }
    }

    pub fn len(&self) -> (r: usize)
        requires
            self.wf(),
        ensures
            r == self.rows(),
    {
        self.offsets.len() - 1
    }

    pub fn is_valid(&self, i: usize) -> (r: bool)
        requires
            self.wf(),
            i < self.rows(),
        ensures
            r == valid_at(self.validity, i as int),
    {
        is_valid_at(&self.validity, i)
    }

    /// Where list `i` starts and ends.
    pub fn bounds(&self, i: usize) -> (r: (usize, usize))
        requires
            self.wf(),
            i < self.rows(),
        ensures
            r.0 == self.offsets@[i as int],
            r.1 == self.offsets@[i + 1],
            r.0 <= r.1 <= self.values.len(),
            r.1 - r.0 == self.width(i as int),
    {
        proof {
            assert(self.offsets.len() > i + 1);
        }
        let start: i64 = self.offsets[i];
        let end: i64 = self.offsets[i + 1];
        proof {
            let last = self.offsets@[self.offsets@.len() - 1];
            assert(self.offsets@[0] <= start <= end <= last);
            assert(self.values.len() <= usize::MAX) by {
                match self.values {
                    ListValues::Scalars(column) => {
                        assert(column.values.len() <= usize::MAX);
                    },
                    ListValues::Other { len } => {},
                }
            }
        }
        (start as usize, end as usize)
    }
}

} // verus!
