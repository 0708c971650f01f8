//! The two byte streams of a run: the input that is still to be read and
//! the output written so far.
use vstd::prelude::*;

verus! {

/// Mathematical model of the streams.
pub struct Streams {
    /// The input bytes that no instruction has read yet, next one first.
    pub pending: Seq<u8>,
    /// The bytes written so far, in the order in which they were written.
    pub output: Seq<u8>,
}

impl Streams {
    /// The streams after the next input byte has been taken.
    pub open spec fn read(self) -> Streams {
        Streams { pending: self.pending.skip(1), ..self }
    }

    /// The streams after `byte` has been written.
    pub open spec fn write(self, byte: u8) -> Streams {
        Streams { output: self.output.push(byte), ..self }
    }
}

/// The executable streams: a fixed input with a read cursor, and a growing
/// output buffer.
#[derive(Debug)]
pub struct Console {
    input: Vec<u8>,
    cursor: usize,
    output: Vec<u8>,
}

impl View for Console {
    type V = Streams;

    closed spec fn view(&self) -> Streams {
        Streams {
            pending: if self.cursor <= self.input@.len() {
                self.input@.skip(self.cursor as int)
            } else {
                Seq::empty()
            },
            output: self.output@,
        }
    }
}

impl Console {
    /// Streams that offer `input` for reading and hold no output yet.
    pub fn new(input: Vec<u8>) -> (console: Self)
        ensures
            console@.pending == input@,
            console@.output == Seq::<u8>::empty(),
    {
        Self { input, cursor: 0, output: Vec::new() }
    }

    /// Takes the next input byte, or reports that the input is exhausted.
    pub fn read(&mut self) -> (byte: Option<u8>)
        ensures
            match byte {
                Some(b) => old(self)@.pending.len() > 0 && b == old(self)@.pending[0]
                    && final(self)@ == old(self)@.read(),
                None => old(self)@.pending.len() == 0 && final(self)@ == old(self)@,
            },
    {
        if self.cursor < self.input.len() {
            let b = self.input[self.cursor];
            self.cursor = self.cursor + 1;
            assert(self.input@.skip(self.cursor as int) == old(self).input@.skip(
                old(self).cursor as int,
            ).skip(1));
            Some(b)
        } else {
            None
        }
    }

    /// Appends `byte` to the output.
    pub fn write(&mut self, byte: u8)
        ensures
            final(self)@ == old(self)@.write(byte),
    {
        self.output.push(byte);
    }

    /// The bytes written so far.
    pub fn output(&self) -> (bytes: &Vec<u8>)
        ensures
            bytes@ == self@.output,
    {
        &self.output
    }

    /// The number of input bytes that are still to be read.
    pub fn pending(&self) -> (n: usize)
        ensures
            n == self@.pending.len(),
    {
        if self.cursor <= self.input.len() {
            self.input.len() - self.cursor
        } else {
            0
        }
    }
}

} // verus!
