//! Paging through data in chunks: which offset a viewer shows.
use vstd::prelude::*;

verus! {

/// The offset of the chunk on view and the chunk size.
pub struct ChunkView {
    pub current_offset: u64,
    pub chunk_size: u64,
}

/// The offset of the last chunk of data of length `len`.
pub open spec fn last_chunk_offset(len: u64, chunk_size: u64) -> u64 {
    if len >= chunk_size {
        (len - chunk_size) as u64
    } else {
        0
    }
}

/// How many of `len` items a chunk of `chunk_size` at `offset` shows.
pub open spec fn visible_items(offset: u64, chunk_size: u64, len: u64) -> u64 {
    if len >= offset && len - offset < chunk_size {
        (len - offset) as u64
    } else if len >= offset {
        chunk_size
    } else {
        0
    }
}

impl ChunkView {
    /// A chunk at `offset` can be shown: there is data and the offset is inside it.
    pub fn can_display_chunk(&self, offset: u64, data_len: u64) -> (b: bool)
        ensures
            b == (data_len != 0 && offset < data_len),
    {
        if data_len == 0 {
            return false;
        }
        offset < data_len
    }

    /// Moves to `new_offset` when a chunk can be shown there; otherwise, for
    /// non-empty data, to the last chunk. Returns whether the offset was set
    /// (and the views need reading again).
    pub fn update_offset(&mut self, new_offset: u64, data_len: u64) -> (moved: bool)
        ensures
            final(self).chunk_size == old(self).chunk_size,
            data_len != 0 && new_offset < data_len ==> moved && final(self).current_offset == new_offset,
            !(data_len != 0 && new_offset < data_len) ==> if data_len > 0 && last_chunk_offset(
                data_len,
                old(self).chunk_size,
            ) != old(self).current_offset {
                moved && final(self).current_offset == last_chunk_offset(
                    data_len,
                    old(self).chunk_size,
                )
            } else {
                !moved && final(self).current_offset == old(self).current_offset
            },
    {
        if self.can_display_chunk(new_offset, data_len) {
            self.current_offset = new_offset;
            true
        } else if data_len > 0 {
            let last_offset = data_len.saturating_sub(self.chunk_size);
            if last_offset != self.current_offset {
                self.current_offset = last_offset;
                true
            } else {
                false
            }
        } else {
            false
        }
    }

    /// Keeps the offset inside data of length `data_len`: zero for no data,
    /// at most the last chunk's offset otherwise.
    pub fn clamp_offset(&mut self, data_len: u64)
        ensures
            final(self).chunk_size == old(self).chunk_size,
            final(self).current_offset == if data_len == 0 {
                0
            } else if old(self).current_offset > last_chunk_offset(data_len, old(self).chunk_size) {
                last_chunk_offset(data_len, old(self).chunk_size)
            } else {
                old(self).current_offset
            },
    {
        if data_len == 0 {
            self.current_offset = 0;
            return;
        }
        let max_offset = data_len.saturating_sub(self.chunk_size);
        if self.current_offset > max_offset {
            self.current_offset = max_offset;
        }
    }

    /// The offset of the last chunk of data of length `data_len`.
    pub fn last_offset(&self, data_len: u64) -> (o: u64)
        ensures
            o == last_chunk_offset(data_len, self.chunk_size),
    {
        data_len.saturating_sub(self.chunk_size)
    }

    /// The offset one chunk back (the start when there is no chunk before).
    pub fn previous_offset(&self) -> (o: u64)
        ensures
            o == if self.current_offset >= self.chunk_size {
                (self.current_offset - self.chunk_size) as u64
            } else {
                0
            },
    {
        self.current_offset.saturating_sub(self.chunk_size)
    }

    /// The offset one chunk on, but no further than the last chunk.
    pub fn next_offset(&self, data_len: u64) -> (o: u64)
        requires
            self.current_offset + self.chunk_size <= u64::MAX,
        ensures
            o == if self.current_offset + self.chunk_size <= last_chunk_offset(
                data_len,
                self.chunk_size,
            ) {
                (self.current_offset + self.chunk_size) as u64
            } else {
                last_chunk_offset(data_len, self.chunk_size)
            },
    {
        let ahead = self.current_offset + self.chunk_size;
        let last = self.last_offset(data_len);
        if ahead <= last {
            ahead
        } else {
            last
        }
    }

    /// How many items of data of length `data_len` the chunk on view shows:
    /// a whole chunk, or what is left after the offset.
    pub fn visible_len(&self, data_len: u64) -> (n: u64)
        ensures
            n == visible_items(self.current_offset, self.chunk_size, data_len),
    {
        let avail = data_len.saturating_sub(self.current_offset);
        if self.chunk_size < avail {
            self.chunk_size
        } else {
            avail
        }
    }
}

} // verus!
