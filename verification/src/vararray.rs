use vstd::prelude::*;

verus! {

broadcast use vstd::array::group_array_axioms;

pub type Unit = usize;

/// Dimension list with inline storage for the common low ranks; longer lists
/// spill into a heap vector. Viewed as the sequence of its entries.
#[derive(Debug)]
pub enum VarArray {
    Zero([Unit; 0]),
    One([Unit; 1]),
    Two([Unit; 2]),
    Three([Unit; 3]),
    Four([Unit; 4]),
    Five([Unit; 5]),
    Six([Unit; 6]),
    Seven([Unit; 7]),
    Eight([Unit; 8]),
    Etc(Vec<Unit>),
}

impl View for VarArray {
    type V = Seq<Unit>;

    open spec fn view(&self) -> Seq<Unit> {
        match self {
            VarArray::Zero(arr) => arr@,
            VarArray::One(arr) => arr@,
            VarArray::Two(arr) => arr@,
            VarArray::Three(arr) => arr@,
            VarArray::Four(arr) => arr@,
            VarArray::Five(arr) => arr@,
            VarArray::Six(arr) => arr@,
            VarArray::Seven(arr) => arr@,
            VarArray::Eight(arr) => arr@,
            VarArray::Etc(v) => v@,
        }
    }
}

#[derive(Debug, PartialEq, Eq)]
pub enum VarArrayError {
    IndexOutOfRange { index: usize, length: usize },
    LengthMismatch(usize, usize),
}

impl VarArray {
    pub fn from_slice(data: &[Unit]) -> (r: VarArray)
        ensures
            r@ == data@,
    {
        let r = match data.len() {
            0 => VarArray::Zero([]),
            1 => VarArray::One([data[0]]),
            2 => VarArray::Two([data[0], data[1]]),
            3 => VarArray::Three([data[0], data[1], data[2]]),
            4 => VarArray::Four([data[0], data[1], data[2], data[3]]),
            5 => VarArray::Five([data[0], data[1], data[2], data[3], data[4]]),
            6 => VarArray::Six([data[0], data[1], data[2], data[3], data[4], data[5]]),
            7 => VarArray::Seven([data[0], data[1], data[2], data[3], data[4], data[5], data[6]]),
            8 => VarArray::Eight(
                [data[0], data[1], data[2], data[3], data[4], data[5], data[6], data[7]],
            ),
            _ => {
                let mut v: Vec<Unit> = Vec::new();
                for i in 0..data.len()
                    invariant
                        v@.len() == i,
                        forall|j: int| 0 <= j < i ==> v@[j] == data@[j],
                {
                    v.push(data[i]);
                }
                VarArray::Etc(v)
            },
        };
        proof {
            assert(r@ =~= data@);
        }
        r
    }

    pub fn len(&self) -> (n: usize)
        ensures
            n == self@.len(),
    {
        match self {
            VarArray::Zero(_) => 0,
            VarArray::One(_) => 1,
            VarArray::Two(_) => 2,
            VarArray::Three(_) => 3,
            VarArray::Four(_) => 4,
            VarArray::Five(_) => 5,
            VarArray::Six(_) => 6,
            VarArray::Seven(_) => 7,
            VarArray::Eight(_) => 8,
            VarArray::Etc(v) => v.len(),
        }
    }

    pub fn get(&self, index: usize) -> (r: Result<Unit, VarArrayError>)
        ensures
            r is Ok <==> index < self@.len(),
            r matches Ok(v) ==> v == self@[index as int],
            r matches Err(e) ==> e == (VarArrayError::IndexOutOfRange {
                index,
                length: self@.len() as usize,
            }),
    {
        let length = self.len();
        if index < length {
            Ok(self.as_slice()[index])
        } else {
            Err(VarArrayError::IndexOutOfRange { index, length })
        }
    }

    /// Writes one entry in place; the counterpart of `get`.
    pub fn set(&mut self, index: usize, value: Unit) -> (r: Result<(), VarArrayError>)
        ensures
            r is Ok <==> index < old(self)@.len(),
            r is Ok ==> final(self)@ == old(self)@.update(index as int, value),
            r is Err ==> final(self)@ == old(self)@,
            r matches Err(e) ==> e == (VarArrayError::IndexOutOfRange {
                index,
                length: old(self)@.len() as usize,
            }),
    {
        let length = self.len();
        if index >= length {
            return Err(VarArrayError::IndexOutOfRange { index, length });
        }
        match self {
            VarArray::Zero(_) => {
            },
            VarArray::One(arr) => arr[index] = value,
            VarArray::Two(arr) => arr[index] = value,
            VarArray::Three(arr) => arr[index] = value,
            VarArray::Four(arr) => arr[index] = value,
            VarArray::Five(arr) => arr[index] = value,
            VarArray::Six(arr) => arr[index] = value,
            VarArray::Seven(arr) => arr[index] = value,
            VarArray::Eight(arr) => arr[index] = value,
            VarArray::Etc(v) => {
                v.set(index, value);
            },
        }
        proof {
            assert(final(self)@ =~= old(self)@.update(index as int, value));
        }
        Ok(())
    }

    pub fn as_slice(&self) -> (r: &[Unit])
        ensures
            r@ == self@,
    {
        match self {
            VarArray::Zero(arr) => arr.as_slice(),
            VarArray::One(arr) => arr.as_slice(),
            VarArray::Two(arr) => arr.as_slice(),
            VarArray::Three(arr) => arr.as_slice(),
            VarArray::Four(arr) => arr.as_slice(),
            VarArray::Five(arr) => arr.as_slice(),
            VarArray::Six(arr) => arr.as_slice(),
            VarArray::Seven(arr) => arr.as_slice(),
            VarArray::Eight(arr) => arr.as_slice(),
            VarArray::Etc(v) => v.as_slice(),
        }
    }

    pub fn iter(&self) -> (r: Iter)
        ensures
            r.entries() == self@,
            r.index() == 0,
    {
        Iter::new(self)
    }

    pub fn add(&self, rhs: &VarArray) -> (r: Result<VarArray, VarArrayError>)
        requires
            self@.len() == rhs@.len() ==> forall|i: int|
                0 <= i < self@.len() ==> self@[i] + rhs@[i] <= usize::MAX,
        ensures
            r is Ok <==> self@.len() == rhs@.len(),
            r matches Ok(v) ==> v@.len() == self@.len() && forall|i: int|
                0 <= i < self@.len() ==> v@[i] == self@[i] + rhs@[i],
            r matches Err(e) ==> e == VarArrayError::LengthMismatch(
                self@.len() as usize,
                rhs@.len() as usize,
            ),
    {
        let a = self.as_slice();
        let b = rhs.as_slice();
        if a.len() != b.len() {
            return Err(VarArrayError::LengthMismatch(a.len(), b.len()));
        }
        let mut buf: Vec<Unit> = Vec::new();
        for i in 0..a.len()
            invariant
                a@ == self@,
                b@ == rhs@,
                a@.len() == b@.len(),
                buf@.len() == i,
                forall|j: int| 0 <= j < i ==> buf@[j] == a@[j] + b@[j],
                forall|j: int| 0 <= j < a@.len() ==> a@[j] + b@[j] <= usize::MAX,
        {
            buf.push(a[i] + b[i]);
        }
        Ok(VarArray::from_slice(buf.as_slice()))
    }

    pub fn sub(&self, rhs: &VarArray) -> (r: Result<VarArray, VarArrayError>)
        requires
            self@.len() == rhs@.len() ==> forall|i: int|
                0 <= i < self@.len() ==> rhs@[i] <= self@[i],
        ensures
            r is Ok <==> self@.len() == rhs@.len(),
            r matches Ok(v) ==> v@.len() == self@.len() && forall|i: int|
                0 <= i < self@.len() ==> v@[i] == self@[i] - rhs@[i],
            r matches Err(e) ==> e == VarArrayError::LengthMismatch(
                self@.len() as usize,
                rhs@.len() as usize,
            ),
    {
        let a = self.as_slice();
        let b = rhs.as_slice();
        if a.len() != b.len() {
            return Err(VarArrayError::LengthMismatch(a.len(), b.len()));
        }
        let mut buf: Vec<Unit> = Vec::new();
        for i in 0..a.len()
            invariant
                a@ == self@,
                b@ == rhs@,
                a@.len() == b@.len(),
                buf@.len() == i,
                forall|j: int| 0 <= j < i ==> buf@[j] == a@[j] - b@[j],
                forall|j: int| 0 <= j < a@.len() ==> b@[j] <= a@[j],
        {
            buf.push(a[i] - b[i]);
        }
        Ok(VarArray::from_slice(buf.as_slice()))
    }

    pub fn mul(&self, rhs: &VarArray) -> (r: Result<VarArray, VarArrayError>)
        requires
            self@.len() == rhs@.len() ==> forall|i: int|
                0 <= i < self@.len() ==> self@[i] * rhs@[i] <= usize::MAX,
        ensures
            r is Ok <==> self@.len() == rhs@.len(),
            r matches Ok(v) ==> v@.len() == self@.len() && forall|i: int|
                0 <= i < self@.len() ==> v@[i] == self@[i] * rhs@[i],
            r matches Err(e) ==> e == VarArrayError::LengthMismatch(
                self@.len() as usize,
                rhs@.len() as usize,
            ),
    {
        let a = self.as_slice();
        let b = rhs.as_slice();
        if a.len() != b.len() {
            return Err(VarArrayError::LengthMismatch(a.len(), b.len()));
        }
        let mut buf: Vec<Unit> = Vec::new();
        for i in 0..a.len()
            invariant
                a@ == self@,
                b@ == rhs@,
                a@.len() == b@.len(),
                buf@.len() == i,
                forall|j: int| 0 <= j < i ==> buf@[j] == a@[j] * b@[j],
                forall|j: int| 0 <= j < a@.len() ==> a@[j] * b@[j] <= usize::MAX,
        {
            buf.push(a[i] * b[i]);
        }
        Ok(VarArray::from_slice(buf.as_slice()))
    }

    pub fn div(&self, rhs: &VarArray) -> (r: Result<VarArray, VarArrayError>)
        requires
            self@.len() == rhs@.len() ==> forall|i: int| 0 <= i < self@.len() ==> rhs@[i] != 0,
        ensures
            r is Ok <==> self@.len() == rhs@.len(),
            r matches Ok(v) ==> v@.len() == self@.len() && forall|i: int|
                0 <= i < self@.len() ==> v@[i] == self@[i] / rhs@[i],
            r matches Err(e) ==> e == VarArrayError::LengthMismatch(
                self@.len() as usize,
                rhs@.len() as usize,
            ),
    {
        let a = self.as_slice();
        let b = rhs.as_slice();
        if a.len() != b.len() {
            return Err(VarArrayError::LengthMismatch(a.len(), b.len()));
        }
        let mut buf: Vec<Unit> = Vec::new();
        for i in 0..a.len()
            invariant
                a@ == self@,
                b@ == rhs@,
                a@.len() == b@.len(),
                buf@.len() == i,
                forall|j: int| 0 <= j < i ==> buf@[j] == a@[j] / b@[j],
                forall|j: int| 0 <= j < a@.len() ==> b@[j] != 0,
        {
            buf.push(a[i] / b[i]);
        }
        Ok(VarArray::from_slice(buf.as_slice()))
    }

    pub fn rem(&self, rhs: &VarArray) -> (r: Result<VarArray, VarArrayError>)
        requires
            self@.len() == rhs@.len() ==> forall|i: int| 0 <= i < self@.len() ==> rhs@[i] != 0,
        ensures
            r is Ok <==> self@.len() == rhs@.len(),
            r matches Ok(v) ==> v@.len() == self@.len() && forall|i: int|
                0 <= i < self@.len() ==> v@[i] == self@[i] % rhs@[i],
            r matches Err(e) ==> e == VarArrayError::LengthMismatch(
                self@.len() as usize,
                rhs@.len() as usize,
            ),
    {
        let a = self.as_slice();
        let b = rhs.as_slice();
        if a.len() != b.len() {
            return Err(VarArrayError::LengthMismatch(a.len(), b.len()));
        }
        let mut buf: Vec<Unit> = Vec::new();
        for i in 0..a.len()
            invariant
                a@ == self@,
                b@ == rhs@,
                a@.len() == b@.len(),
                buf@.len() == i,
                forall|j: int| 0 <= j < i ==> buf@[j] == a@[j] % b@[j],
                forall|j: int| 0 <= j < a@.len() ==> b@[j] != 0,
        {
            buf.push(a[i] % b[i]);
        }
        Ok(VarArray::from_slice(buf.as_slice()))
    }
}

impl Clone for VarArray {
    fn clone(&self) -> (res: VarArray)
        ensures
            res@ == self@,
    {
        VarArray::from_slice(self.as_slice())
    }
}

impl PartialEq for VarArray {
    fn eq(&self, other: &VarArray) -> (r: bool) {
        let a = self.as_slice();
        let b = other.as_slice();
        if a.len() != b.len() {
            proof {
                assert(self@ !~= other@);
            }
            return false;
        }
        for i in 0..a.len()
            invariant
                a@ == self@,
                b@ == other@,
                a@.len() == b@.len(),
                forall|j: int| 0 <= j < i ==> a@[j] == b@[j],
        {
            if a[i] != b[i] {
                proof {
                    assert(self@ !~= other@);
                }
                return false;
            }
        }
        proof {
            assert(self@ =~= other@);
        }
        true
    }
}

impl vstd::std_specs::cmp::PartialEqSpecImpl for VarArray {
    open spec fn obeys_eq_spec() -> bool {
        true
    }

    open spec fn eq_spec(&self, other: &VarArray) -> bool {
        self@ == other@
    }
}

impl Eq for VarArray {
}

/// Walks one entry of a dimension list at a time.
pub struct Iter<'a> {
    varr: &'a VarArray,
    pos: usize,
}

impl<'a> Iter<'a> {
    /// The sequence being walked.
    pub closed spec fn entries(&self) -> Seq<Unit> {
        self.varr@
    }

    /// How many entries were already handed out.
    pub closed spec fn index(&self) -> nat {
        self.pos as nat
    }

    pub fn new(varr: &'a VarArray) -> (r: Iter<'a>)
        ensures
            r.entries() == varr@,
            r.index() == 0,
    {
        Iter { varr, pos: 0 }
    }

    pub fn next(&mut self) -> (r: Option<Unit>)
        ensures
            final(self).entries() == old(self).entries(),
            old(self).index() < old(self).entries().len() ==> r == Some(
                old(self).entries()[old(self).index() as int],
            ) && final(self).index() == old(self).index() + 1,
            old(self).index() >= old(self).entries().len() ==> r is None && final(self).index()
                == old(self).index(),
    {
        let s = self.varr.as_slice();
        if self.pos < s.len() {
            let out = s[self.pos];
            self.pos = self.pos + 1;
            Some(out)
        } else {
            None
        }
    }
}

} // verus!
