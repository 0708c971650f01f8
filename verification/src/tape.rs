//! The tape: a line of byte cells addressed by a signed position, and one
//! data pointer that walks over it.
use vstd::prelude::*;

verus! {

/// The byte that follows `value`, going round from 255 to 0.
pub open spec fn succ(value: u8) -> u8 {
    ((value + 1) % 256) as u8
}

/// The byte that precedes `value`, going round from 0 to 255.
pub open spec fn pred(value: u8) -> u8 {
    ((value + 255) % 256) as u8
}

/// The distance of position `p` from the origin.
pub open spec fn magnitude(p: int) -> int {
    if p < 0 {
        -p
    } else {
        p
    }
}

/// Mathematical model of a tape.
///
/// The cell at position 0 is `origin`. The cell at position `p > 0` is
/// `right[p - 1]`, the cell at position `p < 0` is `left[-p - 1]`. Cells
/// beyond either sequence are not allocated and read as 0.
pub struct Tape {
    pub left: Seq<u8>,
    pub origin: u8,
    pub right: Seq<u8>,
    pub pointer: int,
}

impl Tape {
    /// The tape a run starts with: nothing allocated, the pointer at 0.
    pub open spec fn blank() -> Tape {
        Tape { left: Seq::empty(), origin: 0, right: Seq::empty(), pointer: 0 }
    }

    /// Position `p` lies within the allocated part of the tape.
    pub open spec fn allocated(self, p: int) -> bool {
        -self.left.len() <= p <= self.right.len()
    }

    /// The pointer stands on an allocated cell.
    pub open spec fn wf(self) -> bool {
        self.allocated(self.pointer)
    }

    /// The value held at position `p`.
    pub open spec fn cell(self, p: int) -> u8 {
        if 0 < p <= self.right.len() {
            self.right[p - 1]
        } else if -self.left.len() <= p < 0 {
            self.left[-p - 1]
        } else if p == 0 {
            self.origin
        } else {
            0
        }
    }

    /// The value under the pointer.
    pub open spec fn current(self) -> u8 {
        self.cell(self.pointer)
    }

    /// The tape with `value` stored under the pointer.
    pub open spec fn write(self, value: u8) -> Tape {
        if self.pointer > 0 {
            Tape { right: self.right.update(self.pointer - 1, value), ..self }
        } else if self.pointer < 0 {
            Tape { left: self.left.update(-self.pointer - 1, value), ..self }
        } else {
            Tape { origin: value, ..self }
        }
    }

    /// The tape with the cell under the pointer raised by one, modulo 256.
    pub open spec fn inc(self) -> Tape {
        self.write(succ(self.current()))
    }

    /// The tape with the cell under the pointer lowered by one, modulo 256.
    pub open spec fn dec(self) -> Tape {
        self.write(pred(self.current()))
    }

    /// The tape with the pointer one position further left; a zero cell is
    /// appended on the left when the distance of the new position from the
    /// origin exceeds the length of the left half. That holds left of the
    /// origin when the pointer leaves the allocated part, and right of it
    /// for as long as the left half is shorter than the way back.
    pub open spec fn move_left(self) -> Tape {
        let p = self.pointer - 1;
        Tape {
            pointer: p,
            left: if self.left.len() < magnitude(p) { self.left.push(0) } else { self.left },
            ..self
        }
    }

    /// The tape with the pointer one position further right; a zero cell is
    /// appended on the right when the new position lies beyond the right
    /// half.
    pub open spec fn move_right(self) -> Tape {
        let p = self.pointer + 1;
        Tape {
            pointer: p,
            right: if self.right.len() < p { self.right.push(0) } else { self.right },
            ..self
        }
    }
}

/// Where the data pointer stands: on the origin cell, or on the cell with
/// the given index in one of the two growable halves.
#[derive(Clone, Copy, Debug)]
enum Head {
    Left(usize),
    Origin,
    Right(usize),
}

/// The executable tape.
#[derive(Debug)]
pub struct Band {
    right: Vec<u8>,
    null: u8,
    left: Vec<u8>,
    head: Head,
}

impl View for Band {
    type V = Tape;

    closed spec fn view(&self) -> Tape {
        Tape {
            left: self.left@,
            origin: self.null,
            right: self.right@,
            pointer: match self.head {
                Head::Left(i) => -(i as int) - 1,
                Head::Origin => 0,
                Head::Right(i) => i as int + 1,
            },
        }
    }
}

impl Band {
    /// The head stands on a cell that exists.
    #[verifier::type_invariant]
    pub(crate) closed spec fn inv(self) -> bool {
        match self.head {
            Head::Left(i) => i < self.left@.len(),
            Head::Origin => true,
            Head::Right(i) => i < self.right@.len(),
        }
    }

    /// A band whose head stands on a cell that exists models a well-formed
    /// tape.
    pub(crate) proof fn lemma_inv_wf(self)
        requires
            self.inv(),
        ensures
            self@.wf(),
    {
    }

    /// A blank tape.
    pub fn new() -> (band: Self)
        ensures
            band@ == Tape::blank(),
            band@.wf(),
    {
        Self { right: Vec::new(), null: 0, left: Vec::new(), head: Head::Origin }
    }

    /// The cell under the pointer.
    pub fn get(&self) -> (value: &u8)
        ensures
            *value == self@.current(),
            self@.wf(),
    {
        proof {
            use_type_invariant(self);
        }
        match self.head {
            Head::Left(i) => &self.left[i],
            Head::Origin => &self.null,
            Head::Right(i) => &self.right[i],
        }
    }

    /// How many cells each half holds: first the left half, then the right.
    pub fn extent(&self) -> (cells: (usize, usize))
        ensures
            cells.0 == self@.left.len(),
            cells.1 == self@.right.len(),
    {
        (self.left.len(), self.right.len())
    }

    /// Stores `value` in the cell under the pointer.
    pub fn set(&mut self, value: u8)
        ensures
            final(self)@ == old(self)@.write(value),
            final(self)@.wf(),
    {
        proof {
            use_type_invariant(&*self);
        }
        match self.head {
            Head::Left(i) => self.left[i] = value,
            Head::Origin => self.null = value,
            Head::Right(i) => self.right[i] = value,
        }
    }

    /// Raises the cell under the pointer by one; 255 becomes 0.
    pub fn inc(&mut self)
        ensures
            final(self)@ == old(self)@.inc(),
            final(self)@.wf(),
    {
        let value = *self.get();
        self.set(value.wrapping_add(1));
    }

    /// Lowers the cell under the pointer by one; 0 becomes 255.
    pub fn dec(&mut self)
        ensures
            final(self)@ == old(self)@.dec(),
            final(self)@.wf(),
    {
        let value = *self.get();
        self.set(value.wrapping_sub(1));
    }

    /// Appends a zero cell at the far end of the left half.
    ///
    /// The half is detached while it grows, and the pointer is parked on
    /// the origin meanwhile, so the band is valid at every moment.
    fn grow_left(&mut self)
        ensures
            final(self).left@ == old(self).left@.push(0),
            final(self).right@ == old(self).right@,
            final(self).null == old(self).null,
            final(self).head == old(self).head,
    {
        proof {
            use_type_invariant(&*self);
        }
        let head = self.head;
        let mut cells: Vec<u8> = Vec::new();
        self.head = Head::Origin;
        core::mem::swap(&mut self.left, &mut cells);
        cells.push(0);
        core::mem::swap(&mut self.left, &mut cells);
        self.head = head;
    }

    /// Appends a zero cell at the far end of the right half, in the same
    /// way as `grow_left`.
    fn grow_right(&mut self)
        ensures
            final(self).left@ == old(self).left@,
            final(self).right@ == old(self).right@.push(0),
            final(self).null == old(self).null,
            final(self).head == old(self).head,
    {
        proof {
            use_type_invariant(&*self);
        }
        let head = self.head;
        let mut cells: Vec<u8> = Vec::new();
        self.head = Head::Origin;
        core::mem::swap(&mut self.right, &mut cells);
        cells.push(0);
        core::mem::swap(&mut self.right, &mut cells);
        self.head = head;
    }

    /// Moves the pointer one cell to the left, and appends a zero cell to
    /// the left half when the new position lies further from the origin
    /// than that half is long.
    pub fn move_left(&mut self)
        ensures
            final(self)@ == old(self)@.move_left(),
            final(self)@.wf(),
    {
        proof {
            use_type_invariant(&*self);
        }
        match self.head {
            Head::Left(i) => {
                let allocated = self.left.len();
                if i + 1 == allocated {
                    self.grow_left();
                }
                self.head = Head::Left(i + 1);
            },
            Head::Origin => {
                if self.left.len() == 0 {
                    self.grow_left();
                }
                self.head = Head::Left(0);
            },
            Head::Right(i) => {
                if self.left.len() < i {
                    self.grow_left();
                }
                if i == 0 {
                    self.head = Head::Origin;
                } else {
                    self.head = Head::Right(i - 1);
                }
            },
        }
    }

    /// Moves the pointer one cell to the right, and appends a zero cell to
    /// the right half when the new position lies beyond that half.
    pub fn move_right(&mut self)
        ensures
            final(self)@ == old(self)@.move_right(),
            final(self)@.wf(),
    {
        proof {
            use_type_invariant(&*self);
        }
        match self.head {
            Head::Right(i) => {
                let allocated = self.right.len();
                if i + 1 == allocated {
                    self.grow_right();
                }
                self.head = Head::Right(i + 1);
            },
            Head::Origin => {
                if self.right.len() == 0 {
                    self.grow_right();
                }
                self.head = Head::Right(0);
            },
            Head::Left(i) => {
                if i == 0 {
                    self.head = Head::Origin;
                } else {
                    self.head = Head::Left(i - 1);
                }
            },
        }
    }
}

} // verus!
