//! The mathematical model of the particle ring: where a batch lands, how the
//! write cursor moves, and what each buffer has ever been handed.
//!
//! Nothing here is executable. [`crate::particle::System`] is specified
//! against this model, and the laws in [`crate::particle::laws`] are proved
//! about it.

use vstd::prelude::*;
use crate::particle::Vertex;

verus! {

/// The latest expiry among `records`, and zero when there are none.
pub open spec fn max_expiry(records: Seq<Vertex>) -> nat
    decreases records.len(),
{
    if records.len() == 0 {
        0
    } else {
        let rest = max_expiry(records.drop_last());
        let last = records.last().expiry();
        if last > rest {
            last
        } else {
            rest
        }
    }
}

/// One contiguous sub-range upload: `len` records of the batch, starting at
/// `start`, go to the slots `offset .. offset + len` of buffer `buffer`.
pub struct UploadView {
    pub buffer: int,
    pub offset: int,
    pub start: int,
    pub len: int,
}

impl UploadView {
    /// The records of `batch` that this upload carries.
    pub open spec fn records(self, batch: Seq<Vertex>) -> Seq<Vertex> {
        batch.subrange(self.start, self.start + self.len)
    }
}

/// The records that `uploads` carry from `batch`, one upload after another.
pub open spec fn records_of(uploads: Seq<UploadView>, batch: Seq<Vertex>) -> Seq<Vertex>
    decreases uploads.len(),
{
    if uploads.len() == 0 {
        Seq::empty()
    } else {
        records_of(uploads.drop_last(), batch) + uploads.last().records(batch)
    }
}

/// The records that `uploads` carry from `batch` into buffer `buffer`, in the
/// order in which they are uploaded.
pub open spec fn records_into(uploads: Seq<UploadView>, batch: Seq<Vertex>, buffer: int) -> Seq<
    Vertex,
>
    decreases uploads.len(),
{
    if uploads.len() == 0 {
        Seq::empty()
    } else {
        let earlier = records_into(uploads.drop_last(), batch, buffer);
        if uploads.last().buffer == buffer {
            earlier + uploads.last().records(batch)
        } else {
            earlier
        }
    }
}

/// A ring of `num_buffers` buffers of `particles_per_buffer` slots each, the
/// cursor `(buffer, offset)` of the next slot to be written, and for each
/// buffer every record that was ever written into it, oldest first.
#[verifier::ext_equal]
pub struct Ring {
    pub particles_per_buffer: int,
    pub num_buffers: int,
    pub cursor: (int, int),
    pub written: Seq<Seq<Vertex>>,
}

impl Ring {
    /// Both sizes are positive, the cursor points at a slot of the ring, and
    /// there is one history per buffer.
    pub open spec fn valid(self) -> bool {
        &&& self.particles_per_buffer > 0
        &&& self.num_buffers > 0
        &&& 0 <= self.cursor.0 < self.num_buffers
        &&& 0 <= self.cursor.1 < self.particles_per_buffer
        &&& self.written.len() == self.num_buffers
    }

    /// The cursor is in step with what was written: the offset counts the
    /// records written into the current buffer since the cursor last came to
    /// its beginning, and every other buffer was left full. So the length of
    /// the current buffer's history is the offset plus a number of whole
    /// buffers, and that of every other history a number of whole buffers.
    pub open spec fn in_step(self) -> bool {
        forall|i: int|
            0 <= i < self.num_buffers ==> (#[trigger] self.written[i]).len() as int
                % self.particles_per_buffer == if i == self.cursor.0 {
                self.cursor.1
            } else {
                0
            }
    }

    /// The ring as it is created: cursor at the first slot, nothing written.
    pub open spec fn empty(particles_per_buffer: int, num_buffers: int) -> Ring {
        Ring {
            particles_per_buffer,
            num_buffers,
            cursor: (0, 0),
            written: Seq::new(num_buffers as nat, |i: int| Seq::empty()),
        }
    }

    /// The number of slots in the whole ring.
    pub open spec fn capacity(self) -> int {
        self.num_buffers * self.particles_per_buffer
    }

    /// The liveness watermark of buffer `buffer`: the latest expiry among all
    /// records ever written into it, whether or not they were overwritten.
    pub open spec fn max_death_time(self, buffer: int) -> nat {
        max_expiry(self.written[buffer])
    }

    /// What the storage holds at slot `slot` of buffer `buffer` once every
    /// upload was carried out: the record that was written there last, if
    /// any was. A buffer is always written from its first slot on, so its
    /// history is a run of whole passes and then the pass in progress; the
    /// slot holds the record of the pass in progress if that has come so far,
    /// and else the record of the pass before.
    pub open spec fn stored(self, buffer: int, slot: int) -> Option<Vertex> {
        let history = self.written[buffer];
        let begun = history.len() - history.len() as int % self.particles_per_buffer;
        if begun + slot < history.len() {
            Some(history[begun + slot])
        } else if begun > 0 {
            Some(history[begun - self.particles_per_buffer + slot])
        } else {
            None
        }
    }

    /// The number of uploads that a batch of `count` records is split into:
    /// one for each buffer that the batch reaches, counting a buffer again
    /// each time the batch comes round to it.
    pub open spec fn upload_count(self, count: int) -> int {
        if count <= 0 {
            0
        } else {
            (self.cursor.1 + count - 1) / self.particles_per_buffer + 1
        }
    }

    /// The `j`-th upload of a batch of `count` records. The first one starts
    /// at the cursor; every later one starts at the beginning of the next
    /// buffer of the ring, and each fills its buffer unless the batch ends.
    pub open spec fn upload(self, count: int, j: int) -> UploadView {
        let start = if j == 0 {
            0
        } else {
            j * self.particles_per_buffer - self.cursor.1
        };
        let offset = if j == 0 {
            self.cursor.1
        } else {
            0
        };
        let room = self.particles_per_buffer - offset;
        UploadView {
            buffer: (self.cursor.0 + j) % self.num_buffers,
            offset,
            start,
            len: if count - start < room {
                count - start
            } else {
                room
            },
        }
    }

    /// All uploads of a batch of `count` records, in the order they are made.
    pub open spec fn uploads(self, count: int) -> Seq<UploadView> {
        Seq::new(self.upload_count(count) as nat, |j: int| self.upload(count, j))
    }

    /// The cursor after `count` more records were written.
    pub open spec fn cursor_after(self, count: int) -> (int, int) {
        let reached = self.cursor.1 + count;
        (
            (self.cursor.0 + reached / self.particles_per_buffer) % self.num_buffers,
            reached % self.particles_per_buffer,
        )
    }

    /// The ring after `batch` was spawned into it.
    pub open spec fn spawn(self, batch: Seq<Vertex>) -> Ring {
        let uploads = self.uploads(batch.len() as int);
        Ring {
            particles_per_buffer: self.particles_per_buffer,
            num_buffers: self.num_buffers,
            cursor: self.cursor_after(batch.len() as int),
            written: Seq::new(
                self.written.len(),
                |i: int| self.written[i] + records_into(uploads, batch, i),
            ),
        }
    }
}

} // verus!
