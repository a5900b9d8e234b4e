use vstd::prelude::*;

verus! {

/// Greatest number of bytes the console line buffer holds.
pub const LINE_BUFFER_CAPACITY: usize = 1024;

/// A control character: the C0 range, delete, and the C1 range.  The line
/// editor never echoes these.
pub open spec fn is_control_char(c: char) -> bool {
    (c as u32) < 0x20 || (0x7F <= (c as u32) && (c as u32) <= 0x9F)
}

/// What the console loop should do after one decoded unicode key.
#[derive(Clone, PartialEq, Eq, Debug)]
pub enum LineAction {
    /// A full line was submitted: print it and start a fresh prompt.
    Submit(Vec<u8>),
    /// The last byte was erased: move the cursor back and blank it.
    EraseLast,
    /// The character was appended: echo it.
    Echo(char),
    /// The key changes nothing and prints nothing.
    Ignore,
}

/// The console line buffer the keyboard consumer edits, bounded by
/// `LINE_BUFFER_CAPACITY`.
pub struct LineBuffer {
    pub bytes: Vec<u8>,
}

impl LineBuffer {
    /// The buffered line so far.
    pub open spec fn contents(self) -> Seq<u8> {
        self.bytes@
    }

    /// The buffer never outgrows its capacity.
    pub open spec fn wf(self) -> bool {
        self.bytes@.len() <= LINE_BUFFER_CAPACITY
    }

    /// An empty line.
    pub fn new() -> (r: LineBuffer)
        ensures
            r.contents() == Seq::<u8>::empty(),
            r.wf(),
    {
        LineBuffer { bytes: Vec::new() }
    }

    /// Applies one decoded unicode key: newline submits the buffered line
    /// and clears the buffer; backspace erases the last byte if any; a
    /// printable character is appended (as its low byte) while room is
    /// left; every other key, and a printable one arriving on a full
    /// buffer, is ignored.
    pub fn press_key(&mut self, c: char) -> (r: LineAction)
        requires
            old(self).wf(),
        ensures
            final(self).wf(),
            c == '\n' ==> (r matches LineAction::Submit(line) && line@ == old(self).contents()
                && final(self).contents() == Seq::<u8>::empty()),
            (c == '\x08' && old(self).contents().len() > 0) ==> (r == LineAction::EraseLast
                && final(self).contents() == old(self).contents().drop_last()),
            (c == '\x08' && old(self).contents().len() == 0) ==> (r == LineAction::Ignore
                && final(self).contents() == old(self).contents()),
            (c != '\n' && c != '\x08' && is_control_char(c)) ==> (r == LineAction::Ignore
                && final(self).contents() == old(self).contents()),
            (!is_control_char(c) && old(self).contents().len() < LINE_BUFFER_CAPACITY) ==> (r
                == LineAction::Echo(c) && final(self).contents() == old(self).contents().push(
                (((c as u32) & 0xFF) as u8),
            )),
            (!is_control_char(c) && old(self).contents().len() >= LINE_BUFFER_CAPACITY) ==> (r
                == LineAction::Ignore && final(self).contents() == old(self).contents()),
    {
        if c == '\n' {
            let mut line: Vec<u8> = Vec::new();
            core::mem::swap(&mut line, &mut self.bytes);
            LineAction::Submit(line)
        } else if c == '\x08' {
            if self.bytes.len() > 0 {
                let _ = self.bytes.pop();
                LineAction::EraseLast
            } else {
                LineAction::Ignore
            }
        } else {
            let code = c as u32;
            if !(code < 0x20 || (0x7F <= code && code <= 0x9F)) && self.bytes.len()
                < LINE_BUFFER_CAPACITY {
                self.bytes.push((code & 0xFF) as u8);
                LineAction::Echo(c)
            } else {
                LineAction::Ignore
            }
        }
    }
}

} // verus!
