//! The position of a reader that reads an object of an object store piece by piece.
use vstd::prelude::*;

verus! {

/// Where a reader stands in an object of the given size. It may stand behind the end.
#[derive(Clone, Copy, Debug)]
pub struct ReadCursor {
    pub pos: u64,
    pub size: u64,
}

/// A change of position.
#[derive(Clone, Copy, Debug)]
pub enum SeekTo {
    Start { offset: u64 },
    End { delta: i64 },
    Current { delta: i64 },
}

/// The number as two's complement reads it with a sign.
pub open spec fn signed_of(n: u64) -> int {
    if n <= i64::MAX {
        n as int
    } else {
        n - 0x1_0000_0000_0000_0000
    }
}

/// The number as two's complement reads it without a sign.
pub open spec fn unsigned_of(n: int) -> int {
    if n >= 0 {
        n
    } else {
        n + 0x1_0000_0000_0000_0000
    }
}

/// The number as two's complement reads it with a sign.
fn to_signed(n: u64) -> (r: i64)
    ensures
        r == signed_of(n),
{
    if n <= i64::MAX as u64 {
        n as i64
    } else {
        -((u64::MAX - n) as i64) - 1
    }
}

/// The number as two's complement reads it without a sign.
fn to_unsigned(n: i64) -> (r: u64)
    ensures
        r == unsigned_of(n as int),
{
    if n >= 0 {
        n as u64
    } else {
        u64::MAX - ((-(n + 1)) as u64)
    }
}

/// The place that a change of position counts from.
pub open spec fn seek_base(cursor: ReadCursor, to: SeekTo) -> int {
    match to {
        SeekTo::Start { offset } => 0,
        SeekTo::End { delta } => signed_of(cursor.size),
        SeekTo::Current { delta } => signed_of(cursor.pos),
    }
}

/// The change of position stays in the signed 64-bit range.
pub open spec fn seek_fits(cursor: ReadCursor, to: SeekTo) -> bool {
    match to {
        SeekTo::Start { offset } => true,
        SeekTo::End { delta } => i64::MIN <= seek_base(cursor, to) + delta <= i64::MAX,
        SeekTo::Current { delta } => i64::MIN <= seek_base(cursor, to) + delta <= i64::MAX,
    }
}

/// The position after the change. Counting back over the start ends far behind the end.
pub open spec fn sought(cursor: ReadCursor, to: SeekTo) -> int {
    match to {
        SeekTo::Start { offset } => offset as int,
        SeekTo::End { delta } => unsigned_of(seek_base(cursor, to) + delta),
        SeekTo::Current { delta } => unsigned_of(seek_base(cursor, to) + delta),
    }
}

/// The inclusive byte range of the next read into a buffer with room for `room` bytes:
/// nothing at the end or without room, else as much as there is room for, and no more than
/// the object has.
pub open spec fn next_range(cursor: ReadCursor, room: nat) -> Option<(int, int)> {
    if cursor.pos >= cursor.size || room == 0 {
        None
    } else if cursor.pos + room >= cursor.size {
        Some((cursor.pos as int, cursor.size - 1))
    } else {
        Some((cursor.pos as int, cursor.pos + room - 1))
    }
}

impl ReadCursor {
    /// Start at the beginning of an object.
    pub fn new(size: u64) -> (cursor: ReadCursor)
        ensures
            cursor == (ReadCursor { pos: 0, size }),
    {
        ReadCursor { pos: 0, size }
    }

    /// Whether a change of position stays in range.
    pub fn can_seek(&self, to: SeekTo) -> (r: bool)
        ensures
            r == seek_fits(*self, to),
    {
        match to {
            SeekTo::Start { .. } => true,
            SeekTo::End { delta } => to_signed(self.size).checked_add(delta).is_some(),
            SeekTo::Current { delta } => to_signed(self.pos).checked_add(delta).is_some(),
        }
    }

    /// Change the position.
    pub fn seek(&mut self, to: SeekTo)
        requires
            seek_fits(*old(self), to),
        ensures
            final(self).pos == sought(*old(self), to),
            final(self).size == old(self).size,
    {
        match to {
            SeekTo::Start { offset } => {
                self.pos = offset;
            },
            SeekTo::End { delta } => {
                self.pos = to_unsigned(to_signed(self.size) + delta);
            },
            SeekTo::Current { delta } => {
                self.pos = to_unsigned(to_signed(self.pos) + delta);
            },
        }
    }

    /// The inclusive byte range of the next read.
    pub fn wanted(&self, room: usize) -> (r: Option<(u64, u64)>)
        ensures
            match r {
                Some((start, end)) => next_range(*self, room as nat) == Some(
                    (start as int, end as int),
                ),
                None => next_range(*self, room as nat) is None,
            },
    {
        if self.pos >= self.size || room == 0 {
            return None;
        }
        if room as u64 >= self.size - self.pos {
            Some((self.pos, self.size - 1))
        } else {
            Some((self.pos, self.pos + (room as u64 - 1)))
        }
    }

    /// As many bytes were read.
    pub fn advance(&mut self, read: usize)
        requires
            old(self).pos + read <= u64::MAX,
        ensures
            final(self).pos == old(self).pos + read,
            final(self).size == old(self).size,
    {
        self.pos = self.pos + read as u64;
    }
}

/// A read starts where the reader stands, stays inside the object and fits the buffer; and
/// it falls short of the buffer only at the end of the object.
pub proof fn reads_stay_inside(cursor: ReadCursor, room: nat)
    ensures
        next_range(cursor, room) matches Some((start, end)) ==> {
            &&& start == cursor.pos
            &&& start <= end < cursor.size
            &&& end - start + 1 <= room
            &&& end - start + 1 < room ==> end == cursor.size - 1
        },
        next_range(cursor, room) is None <==> cursor.pos >= cursor.size || room == 0,
{
}

/// Seeking to the current position does not move the reader.
pub proof fn seeking_nowhere_stays(cursor: ReadCursor)
    ensures
        seek_fits(cursor, SeekTo::Current { delta: 0 }),
        sought(cursor, SeekTo::Current { delta: 0 }) == cursor.pos,
{
}

/// Seeking counts from the start, from the end or from the current position. A position
/// before the start is the one that two's complement gives it. Sizes and positions from
/// 2^63 on count as negative.
pub proof fn seeking_counts_from_its_base(cursor: ReadCursor, offset: u64, delta: i64)
    ensures
        seek_fits(cursor, SeekTo::Start { offset }),
        sought(cursor, SeekTo::Start { offset }) == offset,
        cursor.size < 0x8000_0000_0000_0000 && cursor.size + delta >= 0 ==> sought(
            cursor,
            SeekTo::End { delta },
        ) == cursor.size + delta,
        cursor.size < 0x8000_0000_0000_0000 && cursor.size + delta < 0 ==> sought(
            cursor,
            SeekTo::End { delta },
        ) == cursor.size + delta + 0x1_0000_0000_0000_0000,
        cursor.pos < 0x8000_0000_0000_0000 && cursor.pos + delta >= 0 ==> sought(
            cursor,
            SeekTo::Current { delta },
        ) == cursor.pos + delta,
        cursor.pos < 0x8000_0000_0000_0000 && cursor.pos + delta < 0 ==> sought(
            cursor,
            SeekTo::Current { delta },
        ) == cursor.pos + delta + 0x1_0000_0000_0000_0000,
        cursor.size < 0x8000_0000_0000_0000 ==> seek_fits(cursor, SeekTo::End { delta }) == (
        cursor.size + delta < 0x8000_0000_0000_0000),
        cursor.pos < 0x8000_0000_0000_0000 ==> seek_fits(cursor, SeekTo::Current { delta }) == (
        cursor.pos + delta < 0x8000_0000_0000_0000),
{
}

/// The same of sizes and positions that count as negative.
pub proof fn seeking_from_far_behind(cursor: ReadCursor, delta: i64)
    ensures
        cursor.size >= 0x8000_0000_0000_0000 ==> {
            let to = cursor.size - 0x1_0000_0000_0000_0000 + delta;
            &&& seek_fits(cursor, SeekTo::End { delta }) == (-0x8000_0000_0000_0000 <= to)
            &&& to >= 0 ==> sought(cursor, SeekTo::End { delta }) == to
            &&& to < 0 ==> sought(cursor, SeekTo::End { delta }) == cursor.size + delta
        },
        cursor.pos >= 0x8000_0000_0000_0000 ==> {
            let to = cursor.pos - 0x1_0000_0000_0000_0000 + delta;
            &&& seek_fits(cursor, SeekTo::Current { delta }) == (-0x8000_0000_0000_0000 <= to)
            &&& to >= 0 ==> sought(cursor, SeekTo::Current { delta }) == to
            &&& to < 0 ==> sought(cursor, SeekTo::Current { delta }) == cursor.pos + delta
        },
{
}

/// A reader begins at the start of its object.
pub proof fn reader_begins_at_the_start(size: u64, cursor: ReadCursor)
    requires
        call_ensures(ReadCursor::new, (size,), cursor),
    ensures
        cursor.pos == 0,
        cursor.size == size,
{
}

/// Reading moves the reader on by as many bytes as were read.
pub proof fn reading_moves_on(cursor: &mut ReadCursor, read: usize)
    requires
        call_ensures(ReadCursor::advance, (cursor, read), ()),
    ensures
        final(cursor).pos == old(cursor).pos + read,
        final(cursor).size == old(cursor).size,
{
}

/// Seeking moves the reader to the position that was sought and keeps its object.
pub proof fn seeking_keeps_the_object(cursor: &mut ReadCursor, offset: u64)
    requires
        call_ensures(ReadCursor::seek, (cursor, SeekTo::Start { offset }), ()),
    ensures
        final(cursor).pos == offset,
        final(cursor).size == old(cursor).size,
{
}

} // verus!
