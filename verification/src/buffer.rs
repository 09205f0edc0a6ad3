//! Bytes with a cursor.

use vstd::prelude::*;

use crate::error::Error;

verus! {

/// What a [`Buffer`] holds: the bytes on either side of the cursor.
#[verifier::ext_equal]
pub struct BufferView {
    pub past: Seq<u8>,
    pub rest: Seq<u8>,
}

impl BufferView {
    /// All bytes, regardless of where the cursor stands.
    pub open spec fn bytes(self) -> Seq<u8> {
        self.past + self.rest
    }

    /// The cursor moved over the next `count` bytes, or to the end if there are fewer.
    pub open spec fn advanced(self, count: nat) -> BufferView {
        if count <= self.rest.len() {
            BufferView { past: self.past + self.rest.take(count as int), rest: self.rest.skip(count as int) }
        } else {
            BufferView { past: self.past + self.rest, rest: Seq::empty() }
        }
    }

    /// `bytes` put at the cursor, over what stood there, with the cursor behind them.
    pub open spec fn written(self, bytes: Seq<u8>) -> BufferView {
        BufferView { past: self.past + bytes, rest: self.advanced(bytes.len()).rest }
    }

    /// Writing two pieces one after the other is writing them in one piece.
    pub proof fn lemma_written_twice(self, a: Seq<u8>, b: Seq<u8>)
        ensures
            self.written(a).written(b) == self.written(a + b),
    {
        assert(self.written(a).written(b) =~= self.written(a + b));
    }

    /// Moving the cursor twice is moving it by the sum.
    pub proof fn lemma_advanced_twice(self, a: nat, b: nat)
        ensures
            self.advanced(a).advanced(b) == self.advanced(a + b),
    {
        assert(self.advanced(a).advanced(b) =~= self.advanced(a + b));
    }

    /// Moving the cursor changes no byte.
    pub proof fn lemma_advanced_keeps_bytes(self, count: nat)
        ensures
            self.advanced(count).bytes() == self.bytes(),
    {
        assert(self.advanced(count).bytes() =~= self.bytes());
    }

    /// Cutting the bytes where the cursor stands gives the two sides.
    pub proof fn lemma_split_again(self)
        ensures
            self.bytes().take(self.past.len() as int) == self.past,
            self.bytes().skip(self.past.len() as int) == self.rest,
    {
        assert(self.bytes().take(self.past.len() as int) =~= self.past);
        assert(self.bytes().skip(self.past.len() as int) =~= self.rest);
    }

    /// Writing nothing changes nothing.
    pub proof fn lemma_written_nothing(self)
        ensures
            self.written(Seq::empty()) == self,
    {
        assert(self.written(Seq::empty()) =~= self);
    }

    /// Moving the cursor by nothing changes nothing.
    pub proof fn lemma_advanced_nothing(self)
        ensures
            self.advanced(0) == self,
    {
        assert(self.advanced(0) =~= self);
    }
}

/// A growing byte vector that is written and read at a cursor.
pub struct Buffer {
    data: Vec<u8>,
    position: usize,
}

impl View for Buffer {
    type V = BufferView;

    closed spec fn view(&self) -> BufferView {
        BufferView {
            past: self.data@.take(self.position as int),
            rest: self.data@.skip(self.position as int),
        }
    }
}

impl Buffer {
    #[verifier::type_invariant]
    spec fn cursor_is_within(self) -> bool {
        self.position <= self.data@.len()
    }

    /// A buffer over `data` with the cursor at the front.
    pub fn new(data: Vec<u8>) -> (result: Self)
        ensures
            result@.past == Seq::<u8>::empty(),
            result@.rest == data@,
    {
        let result = Buffer { data, position: 0 };
        assert(result@.rest =~= data@);
        result
    }

    /// All bytes of the buffer.
    pub fn into_inner(self) -> (result: Vec<u8>)
        ensures
            result@ == self@.bytes(),
    {
        proof {
            use_type_invariant(&self);
            assert(self@.bytes() =~= self.data@);
        }
        self.data
    }

    /// All bytes of the buffer.
    pub fn get_ref(&self) -> (result: &Vec<u8>)
        ensures
            result@ == self@.bytes(),
    {
        proof {
            use_type_invariant(&*self);
            assert(self@.bytes() =~= self.data@);
        }
        &self.data
    }

    /// How many bytes lie before the cursor.
    pub fn position(&self) -> (result: usize)
        ensures
            result == self@.past.len(),
    {
        proof {
            use_type_invariant(&*self);
        }
        self.position
    }

    /// Puts the cursor behind the first `position` bytes.
    pub fn set_position(&mut self, position: usize)
        requires
            position <= old(self)@.bytes().len(),
        ensures
            final(self)@.past == old(self)@.bytes().take(position as int),
            final(self)@.rest == old(self)@.bytes().skip(position as int),
    {
        proof {
            use_type_invariant(&*self);
            assert(self@.bytes() =~= self.data@);
        }
        self.position = position;
    }

    /// How many bytes lie behind the cursor.
    pub fn remaining(&self) -> (result: usize)
        ensures
            result == self@.rest.len(),
    {
        proof {
            use_type_invariant(&*self);
        }
        self.data.len() - self.position
    }

    /// The bytes behind the cursor.
    pub fn rest(&self) -> (result: &[u8])
        ensures
            result@ == self@.rest,
    {
        proof {
            use_type_invariant(&*self);
            assert(self.data@.subrange(self.position as int, self.data@.len() as int)
                =~= self@.rest);
        }
        vstd::slice::slice_subrange(self.data.as_slice(), self.position, self.data.len())
    }

    /// Moves the cursor over `count` bytes that lie behind it.
    pub fn advance(&mut self, count: usize)
        requires
            count <= old(self)@.rest.len(),
        ensures
            final(self)@ == old(self)@.advanced(count as nat),
    {
        proof {
            use_type_invariant(&*self);
            assert(self.position + count <= self.data.len());
        }
        let ghost before = self@;
        self.position = self.position + count;
        assert(self@ =~= before.advanced(count as nat));
    }

    /// Writes `bytes` at the cursor.
    pub fn write_all(&mut self, bytes: &[u8])
        ensures
            final(self)@ == old(self)@.written(bytes@),
    {
        let ghost before = self@;
        let mut taken = Buffer { data: Vec::new(), position: 0 };
        std::mem::swap(self, &mut taken);
        proof {
            use_type_invariant(&taken);
        }
        let Buffer { mut data, mut position } = taken;
        let ghost whole = data@;
        let ghost start: int = position as int;
        let mut index: usize = 0;
        while index < bytes.len()
            invariant
                index <= bytes@.len(),
                start + index == position,
                position <= data@.len(),
                start <= whole.len(),
                data@.len() == if whole.len() >= start + index {
                    whole.len() as int
                } else {
                    start + index
                },
                data@ =~= whole.take(start) + bytes@.take(index as int) + whole.skip(
                    if whole.len() >= start + index { start + index } else { whole.len() as int },
                ),
            decreases bytes@.len() - index,
        {
            if position < data.len() {
                data.set(position, bytes[index]);
                position = position + 1;
            } else {
                data.push(bytes[index]);
                position = data.len();
            }
            index = index + 1;
        }
        assert(bytes@.take(index as int) =~= bytes@);
        *self = Buffer { data, position };
        assert(self@ =~= before.written(bytes@));
    }

    /// Writes one byte at the cursor.
    pub fn write_byte(&mut self, byte: u8)
        ensures
            final(self)@ == old(self)@.written(seq![byte]),
    {
        let mut bytes: Vec<u8> = Vec::new();
        bytes.push(byte);
        assert(bytes@ =~= seq![byte]);
        self.write_all(bytes.as_slice());
    }

    /// Reads `count` bytes from the cursor on, or fails with the cursor at the end.
    pub fn read_exact(&mut self, count: u64) -> (result: Result<Vec<u8>, Error>)
        ensures
            final(self)@ == old(self)@.advanced(count as nat),
            result matches Ok(bytes) ==> count <= old(self)@.rest.len() && bytes@
                == old(self)@.rest.take(count as int),
            result matches Err(error) ==> count > old(self)@.rest.len() && error
                == Error::UnexpectedEof,
    {
        let available: usize = self.remaining();
        if available as u64 >= count {
            let ghost before = self@;
            let size: usize = count as usize;
            let rest = self.rest();
            let bytes = vstd::slice::slice_to_vec(vstd::slice::slice_subrange(rest, 0, size));
            assert(bytes@ =~= before.rest.take(count as int));
            self.advance(size);
            Ok(bytes)
        } else {
            self.advance(available);
            assert(self@ =~= old(self)@.advanced(count as nat));
            Err(Error::UnexpectedEof)
        }
    }

    /// Reads one byte, or fails at the end.
    pub fn read_byte(&mut self) -> (result: Result<u8, Error>)
        ensures
            final(self)@ == old(self)@.advanced(1),
            result == if old(self)@.rest.len() > 0 {
                Ok::<u8, Error>(old(self)@.rest[0])
            } else {
                Err(Error::UnexpectedEof)
            },
    {
        match self.read_exact(1) {
            Ok(bytes) => Ok(bytes[0]),
            Err(error) => Err(error),
        }
    }
}

impl Default for Buffer {
    fn default() -> (result: Self)
        ensures
            result@.past == Seq::<u8>::empty(),
            result@.rest == Seq::<u8>::empty(),
    {
        Buffer::new(Vec::new())
    }
}

/// Moving ahead changes no byte and stops at the end.
pub proof fn law_moving_changes_no_byte(buffer: BufferView, count: nat)
    ensures
        buffer.advanced(count).bytes() == buffer.bytes(),
        count <= buffer.rest.len() ==> buffer.advanced(count).past.len() == buffer.past.len()
            + count,
        count > buffer.rest.len() ==> buffer.advanced(count).rest.len() == 0,
        buffer.bytes() == buffer.past + buffer.rest,
{
    assert(buffer.advanced(count).bytes() =~= buffer.bytes());
}

/// What is written stands behind what was there up to the cursor, in place of as many bytes as
/// there are behind it, and the cursor behind it. At the end the bytes grow by it.
pub proof fn law_written_at_the_cursor(buffer: BufferView, bytes: Seq<u8>)
    ensures
        ({
            let after = buffer.written(bytes);
            &&& after.past == buffer.past + bytes
            &&& buffer.rest.len() == 0 ==> after.bytes() == buffer.bytes() + bytes
            &&& bytes.len() <= buffer.rest.len() ==> after.bytes().len() == buffer.bytes().len()
            &&& bytes.len() <= buffer.rest.len() ==> after.rest == buffer.rest.skip(
                bytes.len() as int,
            )
            &&& bytes.len() > buffer.rest.len() ==> after.rest.len() == 0
        }),
{
    if buffer.rest.len() == 0 {
        assert(buffer.written(bytes).bytes() =~= buffer.bytes() + bytes);
    }
}

} // verus!
