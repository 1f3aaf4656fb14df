//! A ring of fixed-size particle buffers.
//!
//! Particles are short-lived, so they are streamed into a fixed set of
//! fixed-capacity buffers that is written round and round: a batch starts at
//! the write cursor, is split wherever it crosses the end of a buffer, and
//! overwrites whatever the ring held there. Each buffer remembers the latest
//! time at which any particle ever written into it dies, so that a renderer
//! can pass over buffers in which nothing is alive any more.
//!
//! [`System`] does the bookkeeping and decides where the records go; the
//! caller owns the storage and carries out the [`Upload`]s that
//! [`System::spawn`] returns.

use vstd::prelude::*;

pub mod laws;
pub mod ring;

verus! {

/// The buffer size of the default configuration.
pub const PARTICLES_PER_BUFFER: usize = 10000;

/// What the ring needs to know of one particle: when it was spawned and how
/// long it lives, both in ticks of the caller's clock.
#[derive(Debug, Clone, Copy, PartialEq, Eq, Structural)]
pub struct Vertex {
    pub spawn_time: u64,
    pub life_duration: u64,
}

impl Vertex {
    /// The time at which the particle dies.
    pub open spec fn expiry(self) -> nat {
        (self.spawn_time + self.life_duration) as nat
    }

    /// The time at which the particle dies.
    pub fn death_time(&self) -> (time: u128)
        ensures
            time == self.expiry(),
    {
        self.spawn_time as u128 + self.life_duration as u128
    }
}

/// The latest death time among `particles[start..end]`, and zero for an
/// empty range.
pub fn max_death_time(particles: &[Vertex], start: usize, end: usize) -> (latest: u128)
    requires
        start <= end <= particles@.len(),
    ensures
        latest == ring::max_expiry(particles@.subrange(start as int, end as int)),
{
    let mut latest: u128 = 0;
    let mut i: usize = start;
    while i < end
        invariant
            start <= i <= end <= particles@.len(),
            latest == ring::max_expiry(particles@.subrange(start as int, i as int)),
        decreases end - i,
    {
        let time = particles[i].death_time();
        proof {
            let seen = particles@.subrange(start as int, i + 1);
            assert(seen.drop_last() == particles@.subrange(start as int, i as int));
            assert(seen.last() == particles@[i as int]);
        }
        if time > latest {
            latest = time;
        }
        i += 1;
    }
    latest
}

/// The sizes of the ring, fixed when it is created.
#[derive(Debug, Clone)]
pub struct Config {
    /// The number of particle slots in each buffer.
    pub particles_per_buffer: usize,
    /// The number of buffers in the ring.
    pub num_buffers: usize,
}

impl Default for Config {
    fn default() -> (config: Self)
        ensures
            config.particles_per_buffer == PARTICLES_PER_BUFFER,
            config.num_buffers == 10,
    {
        Self { particles_per_buffer: PARTICLES_PER_BUFFER, num_buffers: 10 }
    }
}

impl Config {
    /// Whether a ring can be created with these sizes: both are positive.
    pub fn is_valid(&self) -> (valid: bool)
        ensures
            valid == (self.particles_per_buffer > 0 && self.num_buffers > 0),
    {
        self.particles_per_buffer > 0 && self.num_buffers > 0
    }
}

/// One contiguous sub-range upload that a spawn asks for: the records
/// `start .. start + len` of the batch go to the slots
/// `offset .. offset + len` of the buffer with index `buffer`.
#[derive(Debug, Clone, Copy, PartialEq, Eq, Structural)]
pub struct Upload {
    pub buffer: usize,
    pub offset: usize,
    pub start: usize,
    pub len: usize,
}

impl View for Upload {
    type V = ring::UploadView;

    open spec fn view(&self) -> ring::UploadView {
        ring::UploadView {
            buffer: self.buffer as int,
            offset: self.offset as int,
            start: self.start as int,
            len: self.len as int,
        }
    }
}

impl DeepView for Upload {
    type V = ring::UploadView;

    open spec fn deep_view(&self) -> ring::UploadView {
        self@
    }
}

/// The marker of the drawing contract of particles: the vertex layout and the
/// instancing with which the records of the ring are to be drawn. It carries
/// no state.
#[derive(Debug, Clone, Copy, PartialEq, Eq, Structural)]
pub struct Shader;

/// The bookkeeping for one buffer of the ring.
pub struct Buffer {
    /// Time at which the longest-living particle ever written here dies.
    max_death_time: u128,
    /// Every record ever written into this buffer, oldest first.
    written: Ghost<Seq<Vertex>>,
}

impl Buffer {
    /// Every record ever written into this buffer, oldest first.
    pub closed spec fn written(&self) -> Seq<Vertex> {
        self.written@
    }

    /// The watermark is the latest expiry among the records ever written.
    pub closed spec fn wf(&self) -> bool {
        self.max_death_time == ring::max_expiry(self.written@)
    }

    /// The time at which the longest-living particle ever written into this
    /// buffer dies, and zero if none was written. After that time the buffer
    /// holds no live particle. Overwriting a slot never lowers it.
    pub fn max_death_time(&self) -> (time: u128)
        requires
            self.wf(),
        ensures
            time == ring::max_expiry(self.written()),
    {
        self.max_death_time
    }
}

/// A particle system keeps a ring of particle buffers and the position at
/// which the next particle will be written.
pub struct System {
    config: Config,
    buffers: Vec<Buffer>,
    /// The first element is an index into `buffers`, the second one is an
    /// index into that buffer.
    next_index: (usize, usize),
}

impl View for System {
    type V = ring::Ring;

    closed spec fn view(&self) -> ring::Ring {
        ring::Ring {
            particles_per_buffer: self.config.particles_per_buffer as int,
            num_buffers: self.config.num_buffers as int,
            cursor: (self.next_index.0 as int, self.next_index.1 as int),
            written: Seq::new(self.buffers@.len(), |i: int| self.buffers@[i].written()),
        }
    }
}

impl System {
    /// The ring is valid and its cursor in step with what was written, and
    /// every buffer's watermark is the latest expiry among the records ever
    /// written into it.
    pub closed spec fn wf(&self) -> bool {
        &&& self@.valid()
        &&& self@.in_step()
        &&& self.buffers@.len() == self.config.num_buffers
        &&& forall|i: int| 0 <= i < self.buffers@.len() ==> (#[trigger] self.buffers@[i]).wf()
    }

    /// Sets up the bookkeeping for a ring of `config.num_buffers` buffers of
    /// `config.particles_per_buffer` slots each, with nothing written yet.
    pub fn create(config: &Config) -> (system: System)
        requires
            config.particles_per_buffer > 0,
            config.num_buffers > 0,
        ensures
            system.wf(),
            system@ == ring::Ring::empty(
                config.particles_per_buffer as int,
                config.num_buffers as int,
            ),
            system@.cursor == (0int, 0int),
            system@.capacity() == config.num_buffers * config.particles_per_buffer,
            forall|i: int| 0 <= i < config.num_buffers ==> system@.max_death_time(i) == 0,
    {
        let mut buffers: Vec<Buffer> = Vec::new();
        let mut i: usize = 0;
        while i < config.num_buffers
            invariant
                i <= config.num_buffers,
                buffers@.len() == i,
                forall|j: int|
                    0 <= j < i ==> (#[trigger] buffers@[j]).written() == Seq::<Vertex>::empty()
                        && buffers@[j].wf(),
            decreases config.num_buffers - i,
        {
            buffers.push(Buffer { max_death_time: 0, written: Ghost(Seq::empty()) });
            i += 1;
        }
        let system = System {
            config: Config {
                particles_per_buffer: config.particles_per_buffer,
                num_buffers: config.num_buffers,
            },
            buffers,
            next_index: (0, 0),
        };
        proof {
            laws::lemma_empty_ring(config.particles_per_buffer as int, config.num_buffers as int);
            assert(system@ == ring::Ring::empty(
                config.particles_per_buffer as int,
                config.num_buffers as int,
            ));
        }
        system
    }

    /// Takes a batch of new particles into the ring, starting at the cursor
    /// and filling one buffer after another, and returns the uploads that
    /// bring the storage up to date, in the order in which they are to be
    /// made. A batch larger than the ring comes round and overwrites its own
    /// beginning.
    pub fn spawn(&mut self, particles: &[Vertex]) -> (uploads: Vec<Upload>)
        requires
            old(self).wf(),
        ensures
            final(self).wf(),
            final(self)@ == old(self)@.spawn(particles@),
            uploads.deep_view() == old(self)@.uploads(particles@.len() as int),
            uploads@.len() == old(self)@.upload_count(particles@.len() as int),
            // Each upload lies within one buffer and within the batch.
            forall|j: int|
                0 <= j < uploads@.len() ==> {
                    &&& (#[trigger] uploads@[j]).buffer < old(self)@.num_buffers
                    &&& 1 <= uploads@[j].len <= old(self)@.particles_per_buffer
                    &&& uploads@[j].offset + uploads@[j].len <= old(self)@.particles_per_buffer
                    &&& uploads@[j].start + uploads@[j].len <= particles@.len()
                },
            // The uploads carry the batch, every record once and in order.
            ring::records_of(uploads.deep_view(), particles@) == particles@,
            // An empty batch changes nothing.
            particles@.len() == 0 ==> uploads@.len() == 0 && final(self)@ == old(self)@,
            // A batch that fits into the current buffer goes there at once.
            0 < particles@.len() <= old(self)@.particles_per_buffer - old(self)@.cursor.1 ==> {
                &&& uploads@.len() == 1
                &&& uploads@[0]@ == (ring::UploadView {
                    buffer: old(self)@.cursor.0,
                    offset: old(self)@.cursor.1,
                    start: 0,
                    len: particles@.len() as int,
                })
                &&& final(self)@.cursor == if particles@.len() < old(self)@.particles_per_buffer
                    - old(self)@.cursor.1 {
                    (old(self)@.cursor.0, old(self)@.cursor.1 + particles@.len())
                } else {
                    ((old(self)@.cursor.0 + 1) % old(self)@.num_buffers, 0int)
                }
            },
            // No watermark falls.
            forall|i: int|
                0 <= i < old(self)@.num_buffers ==> final(self)@.max_death_time(i) >= old(
                    self,
                )@.max_death_time(i),
    {
        let ghost before = self@;
        let ghost batch = particles@;
        let ghost count = particles@.len() as int;
        let ghost size = self.config.particles_per_buffer as int;
        // The number of buffer ends that the batch has passed so far.
        let ghost mut wraps: int = 0;
        let mut uploads: Vec<Upload> = Vec::new();
        let mut done: usize = 0;
        proof {
            vstd::arithmetic::div_mod::lemma_small_mod(
                before.cursor.0 as nat,
                before.num_buffers as nat,
            );
        }
        while done < particles.len()
            invariant
                before.valid(),
                before.in_step(),
                batch == particles@,
                count == batch.len(),
                size == before.particles_per_buffer,
                self.config.particles_per_buffer == before.particles_per_buffer,
                self.config.num_buffers == before.num_buffers,
                self.buffers@.len() == before.num_buffers,
                self@.written.len() == before.num_buffers,
                done <= count,
                0 <= wraps,
                done == 0 ==> wraps == 0,
                0 < done < count ==> self.next_index.1 == 0,
                self.next_index.1 < size,
                before.cursor.1 + done == wraps * size + self.next_index.1,
                self.next_index.0 == (before.cursor.0 + wraps) % before.num_buffers,
                uploads@.len() == if done == 0 {
                    0
                } else if self.next_index.1 == 0 {
                    wraps
                } else {
                    wraps + 1
                },
                forall|j: int|
                    0 <= j < uploads@.len() ==> (#[trigger] uploads@[j])@ == before.upload(
                        count,
                        j,
                    ),
                forall|i: int|
                    0 <= i < before.num_buffers ==> (#[trigger] self.buffers@[i]).written()
                        == before.written[i] + ring::records_into(
                        uploads.deep_view(),
                        batch,
                        i,
                    ),
                forall|i: int|
                    0 <= i < before.num_buffers ==> (#[trigger] self.buffers@[i]).wf(),
            decreases count - done,
        {
            let buffer = self.next_index.0;
            let offset = self.next_index.1;
            proof {
                vstd::arithmetic::div_mod::lemma_mod_bound(
                    before.cursor.0 + wraps,
                    before.num_buffers,
                );
            }

            // Contiguously fill up the current buffer as much as possible.
            let capacity = self.config.particles_per_buffer - offset;
            let remaining = particles.len() - done;
            let num_to_write = if remaining < capacity {
                remaining
            } else {
                capacity
            };
            let upload = Upload { buffer, offset, start: done, len: num_to_write };
            let ghost made = uploads.deep_view();
            proof {
                if done > 0 {
                    assert(wraps >= 1) by (nonlinear_arith)
                        requires
                            wraps * size > 0,
                            size > 0,
                    ;
                }
                assert(upload@ == before.upload(count, uploads@.len() as int));
            }

            // Keep track of how alive the buffer is.
            let new_max_death_time = max_death_time(particles, done, done + num_to_write);
            let old_max_death_time = self.buffers[buffer].max_death_time;
            let ghost records = upload@.records(batch);
            let ghost history = self.buffers@[buffer as int].written() + records;
            proof {
                laws::lemma_max_expiry_concat(self.buffers@[buffer as int].written(), records);
            }
            self.buffers.set(
                buffer,
                Buffer {
                    max_death_time: if new_max_death_time > old_max_death_time {
                        new_max_death_time
                    } else {
                        old_max_death_time
                    },
                    written: Ghost(history),
                },
            );
            uploads.push(upload);

            // Determine the next particle writing point.
            if num_to_write == capacity {
                // The current buffer is now fully written. Move on to the
                // next buffer in the ring.
                proof {
                    laws::lemma_mod_succ(before.cursor.0 + wraps, before.num_buffers);
                    assert((wraps + 1) * size == wraps * size + size) by (nonlinear_arith);
                    wraps = wraps + 1;
                }
                self.next_index = ((buffer + 1) % self.buffers.len(), 0);
            } else {
                // Stay in the current buffer, advancing the inner index.
                self.next_index = (buffer, offset + num_to_write);
            }
            done += num_to_write;

            proof {
                let now = uploads.deep_view();
                assert(now.drop_last() == made);
                assert(now.last() == upload@);
                assert forall|i: int| 0 <= i < before.num_buffers implies (
                #[trigger] self.buffers@[i]).written() == before.written[i]
                    + ring::records_into(now, batch, i) by {
                    if i == buffer {
                        assert(before.written[i] + ring::records_into(made, batch, i) + records
                            == before.written[i] + (ring::records_into(made, batch, i)
                            + records));
                    }
                }
            }
        }
        proof {
            let total = before.cursor.1 + count;
            vstd::arithmetic::div_mod::lemma_fundamental_div_mod_converse(
                total,
                size,
                wraps,
                self.next_index.1 as int,
            );
            if count > 0 {
                if self.next_index.1 == 0 {
                    assert(wraps >= 1) by (nonlinear_arith)
                        requires
                            wraps * size > 0,
                            size > 0,
                    ;
                    assert(total - 1 == (wraps - 1) * size + (size - 1)) by (nonlinear_arith)
                        requires
                            total == wraps * size,
                    ;
                    vstd::arithmetic::div_mod::lemma_fundamental_div_mod_converse(
                        total - 1,
                        size,
                        wraps - 1,
                        size - 1,
                    );
                } else {
                    vstd::arithmetic::div_mod::lemma_fundamental_div_mod_converse(
                        total - 1,
                        size,
                        wraps,
                        self.next_index.1 - 1,
                    );
                }
            }
            assert(uploads.deep_view() == before.uploads(count));
            assert(self@.written == before.spawn(batch).written);

            assert forall|j: int| 0 <= j < uploads@.len() implies {
                &&& (#[trigger] uploads@[j]).buffer < before.num_buffers
                &&& 1 <= uploads@[j].len <= before.particles_per_buffer
                &&& uploads@[j].offset + uploads@[j].len <= before.particles_per_buffer
                &&& uploads@[j].start + uploads@[j].len <= count
            } by {
                laws::lemma_upload_shape(before, count, j);
            }
            laws::lemma_spawn_keeps_in_step(before, batch);
            laws::lemma_uploads_carry_batch(before, batch);
            if count == 0 {
                laws::lemma_spawn_nothing(before);
                assert(batch == Seq::<Vertex>::empty());
            } else if count <= size - before.cursor.1 {
                laws::lemma_spawn_within_buffer(before, batch);
                assert(uploads@[0]@ == uploads.deep_view()[0]);
            }
            assert forall|i: int| 0 <= i < before.num_buffers implies self@.max_death_time(i)
                >= before.max_death_time(i) by {
                laws::lemma_spawn_raises_watermarks(before, batch, i);
            }
        }
        uploads
    }

    /// The marker of the contract with which the particles of this system
    /// are to be drawn.
    pub fn shader(&self) -> (shader: Shader)
        ensures
            shader == Shader,
    {
        Shader
    }

    /// The sizes that the ring was created with.
    pub fn config(&self) -> (config: &Config)
        ensures
            config.particles_per_buffer == self@.particles_per_buffer,
            config.num_buffers == self@.num_buffers,
    {
        &self.config
    }

    /// The position at which the next particle will be written: the index of
    /// a buffer, and the index of a slot in that buffer.
    pub fn next_index(&self) -> (cursor: (usize, usize))
        ensures
            cursor.0 == self@.cursor.0,
            cursor.1 == self@.cursor.1,
    {
        self.next_index
    }

    /// The number of slots in the whole ring.
    pub fn capacity(&self) -> (slots: u128)
        ensures
            slots == self@.capacity(),
    {
        let num_buffers = self.config.num_buffers as u128;
        let particles_per_buffer = self.config.particles_per_buffer as u128;
        assert(num_buffers * particles_per_buffer <= 0xffff_ffff_ffff_ffff
            * 0xffff_ffff_ffff_ffff) by (nonlinear_arith)
            requires
                num_buffers <= 0xffff_ffff_ffff_ffff,
                particles_per_buffer <= 0xffff_ffff_ffff_ffff,
        ;
        num_buffers * particles_per_buffer
    }

    /// The buffers of the ring in order, each with its watermark.
    pub fn buffers(&self) -> (buffers: &[Buffer])
        requires
            self.wf(),
        ensures
            buffers@.len() == self@.num_buffers,
            forall|i: int|
                0 <= i < buffers@.len() ==> (#[trigger] buffers@[i]).wf() && buffers@[i].written()
                    == self@.written[i],
    {
        self.buffers.as_slice()
    }

    /// A well-formed system is a valid ring whose cursor is in step with
    /// what was written.
    pub proof fn lemma_valid(&self)
        requires
            self.wf(),
        ensures
            self@.valid(),
            self@.in_step(),
    {
    }
}

} // verus!
