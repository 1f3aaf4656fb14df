//! What holds of every spawn into a valid ring, proved about the model in
//! [`crate::particle::ring`].

use vstd::prelude::*;
use vstd::arithmetic::div_mod::{
    lemma_add_mod_noop,
    lemma_add_mod_noop_right,
    lemma_fundamental_div_mod,
    lemma_fundamental_div_mod_converse,
    lemma_mod_bound,
    lemma_mod_twice,
    lemma_small_mod,
};
use crate::particle::Vertex;
use crate::particle::ring::{max_expiry, records_into, records_of, Ring, UploadView};

verus! {

/// The ring after one batch after another was spawned into it.
pub open spec fn spawn_all(ring: Ring, batches: Seq<Seq<Vertex>>) -> Ring
    decreases batches.len(),
{
    if batches.len() == 0 {
        ring
    } else {
        spawn_all(ring, batches.drop_last()).spawn(batches.last())
    }
}

/// The records of `batch` that come to lie in buffer `buffer`, in the order
/// of the batch, when each record is written where the cursor stands after
/// the records before it.
pub open spec fn landed(ring: Ring, batch: Seq<Vertex>, buffer: int) -> Seq<Vertex>
    decreases batch.len(),
{
    if batch.len() == 0 {
        Seq::empty()
    } else {
        let earlier = landed(ring, batch.drop_last(), buffer);
        if ring.cursor_after(batch.len() - 1).0 == buffer {
            earlier.push(batch.last())
        } else {
            earlier
        }
    }
}

/// The index of the last of the first `count` records of a batch that is
/// written to slot `slot` of buffer `buffer`, if any of them is.
pub open spec fn last_written_to(ring: Ring, count: int, buffer: int, slot: int) -> Option<int>
    decreases count,
{
    if count <= 0 {
        None
    } else if ring.cursor_after(count - 1) == (buffer, slot) {
        Some(count - 1)
    } else {
        last_written_to(ring, count - 1, buffer, slot)
    }
}

/// The latest expiry of two runs of records put together is the later of
/// their latest expiries.
pub proof fn lemma_max_expiry_concat(first: Seq<Vertex>, second: Seq<Vertex>)
    ensures
        max_expiry(first + second) == if max_expiry(second) > max_expiry(first) {
            max_expiry(second)
        } else {
            max_expiry(first)
        },
    decreases second.len(),
{
    if second.len() == 0 {
        assert(first + second == first);
    } else {
        assert((first + second).drop_last() == first + second.drop_last());
        assert((first + second).last() == second.last());
        lemma_max_expiry_concat(first, second.drop_last());
    }
}

/// Stepping to the next index of a ring of `n` and reducing is the same
/// whether or not the index was reduced before.
pub proof fn lemma_mod_succ(x: int, n: int)
    requires
        n > 0,
    ensures
        (x % n + 1) % n == (x + 1) % n,
{
    lemma_add_mod_noop(x, 1, n);
    lemma_add_mod_noop(x % n, 1, n);
    lemma_mod_twice(x, n);
}

/// `max_expiry` is a maximum: no record expires later, and unless there are
/// no records, one of them expires exactly then.
pub proof fn lemma_max_expiry_is_latest(records: Seq<Vertex>)
    ensures
        forall|k: int|
            0 <= k < records.len() ==> (#[trigger] records[k]).expiry() <= max_expiry(records),
        records.len() > 0 ==> exists|k: int|
            0 <= k < records.len() && (#[trigger] records[k]).expiry() == max_expiry(records),
        records.len() == 0 ==> max_expiry(records) == 0,
    decreases records.len(),
{
    if records.len() > 0 {
        let rest = records.drop_last();
        lemma_max_expiry_is_latest(rest);
        assert forall|k: int| 0 <= k < records.len() implies (#[trigger] records[k]).expiry()
            <= max_expiry(records) by {
            if k < rest.len() {
                assert(records[k] == rest[k]);
            }
        }
        if records.last().expiry() > max_expiry(rest) || rest.len() == 0 {
            assert(records[records.len() - 1].expiry() == max_expiry(records));
        } else {
            let k = choose|k: int|
                0 <= k < rest.len() && (#[trigger] rest[k]).expiry() == max_expiry(rest);
            assert(records[k] == rest[k]);
        }
    }
}

/// Every upload of a spawn lies within one buffer of the ring and within the
/// batch, and carries at least one record and at most a buffer's worth.
/// The first starts at the cursor and at the beginning of the batch; each
/// later one starts at slot zero, where the one before ended in the batch;
/// every upload but the last fills its buffer to the end; and the last ends
/// where the batch ends.
pub proof fn lemma_upload_shape(ring: Ring, count: int, j: int)
    requires
        ring.valid(),
        0 <= j < ring.upload_count(count),
    ensures
        ({
            let upload = ring.upload(count, j);
            let next = ring.upload(count, j + 1);
            &&& 0 <= upload.buffer < ring.num_buffers
            &&& upload.buffer == (ring.cursor.0 + j) % ring.num_buffers
            &&& 0 <= upload.offset
            &&& 1 <= upload.len <= ring.particles_per_buffer
            &&& upload.offset + upload.len <= ring.particles_per_buffer
            &&& 0 <= upload.start
            &&& upload.start + upload.len <= count
            &&& j == 0 ==> upload.start == 0 && upload.offset == ring.cursor.1
            &&& j > 0 ==> upload.offset == 0
            &&& j + 1 < ring.upload_count(count) ==> {
                &&& upload.offset + upload.len == ring.particles_per_buffer
                &&& next.start == upload.start + upload.len
            }
            &&& j + 1 == ring.upload_count(count) ==> upload.start + upload.len == count
        }),
{
    let size = ring.particles_per_buffer;
    let offset = ring.cursor.1;
    let reach = offset + count - 1;
    let last = reach / size;
    lemma_fundamental_div_mod(reach, size);
    lemma_mod_bound(reach, size);
    lemma_mod_bound(ring.cursor.0 + j, ring.num_buffers);
    assert(last == ring.upload_count(count) - 1);
    assert(reach == size * last + reach % size);
    assert(j * size <= last * size) by (nonlinear_arith)
        requires
            j <= last,
            size > 0,
    ;
    assert(size * last == last * size) by (nonlinear_arith);
    assert((j + 1) * size == j * size + size) by (nonlinear_arith);
    if j < last {
        assert((j + 1) * size <= last * size) by (nonlinear_arith)
            requires
                j + 1 <= last,
                size > 0,
        ;
    }
    if j > 0 {
        assert(j * size >= size) by (nonlinear_arith)
            requires
                j >= 1,
                size > 0,
        ;
    }
}

/// The number of uploads is the number of buffers that the batch reaches:
/// none for an empty batch, and otherwise one more than the number of buffer
/// ends that lie between the cursor and the slot of the last record.
pub proof fn lemma_upload_count(ring: Ring, count: int)
    requires
        ring.valid(),
        0 <= count,
    ensures
        ring.uploads(count).len() == ring.upload_count(count),
        count == 0 <==> ring.upload_count(count) == 0,
        0 <= ring.upload_count(count) <= count,
        count > 0 ==> (ring.upload_count(count) - 1) * ring.particles_per_buffer < ring.cursor.1
            + count <= ring.upload_count(count) * ring.particles_per_buffer,
{
    let size = ring.particles_per_buffer;
    if count > 0 {
        let reach = ring.cursor.1 + count - 1;
        let last = reach / size;
        lemma_fundamental_div_mod(reach, size);
        lemma_mod_bound(reach, size);
        assert(size * last == last * size) by (nonlinear_arith);
        assert((last + 1) * size == last * size + size) by (nonlinear_arith);
        assert(last >= 0) by (nonlinear_arith)
            requires
                last * size + size > 0,
                size > 0,
        ;
        assert(last <= reach) by (nonlinear_arith)
            requires
                last * size <= reach,
                last >= 0,
                size >= 1,
        ;
        assert(last + 1 <= count) by (nonlinear_arith)
            requires
                last * size <= ring.cursor.1 + count - 1,
                ring.cursor.1 < size,
                last >= 0,
                size >= 1,
                count >= 1,
        ;
    }
}

/// The first `taken` uploads of a spawn carry the beginning of the batch, up
/// to where the next upload starts.
proof fn lemma_uploads_carry_prefix(ring: Ring, batch: Seq<Vertex>, taken: int)
    requires
        ring.valid(),
        0 <= taken <= ring.upload_count(batch.len() as int),
    ensures
        records_of(ring.uploads(batch.len() as int).take(taken), batch) == batch.subrange(
            0,
            if taken == ring.upload_count(batch.len() as int) {
                batch.len() as int
            } else {
                ring.upload(batch.len() as int, taken).start
            },
        ),
    decreases taken,
{
    let count = batch.len() as int;
    let uploads = ring.uploads(count);
    lemma_upload_count(ring, count);
    if taken == 0 {
        if 0 < ring.upload_count(count) {
            lemma_upload_shape(ring, count, 0);
        }
        assert(records_of(uploads.take(0), batch) == batch.subrange(0, 0));
    } else {
        lemma_uploads_carry_prefix(ring, batch, taken - 1);
        lemma_upload_shape(ring, count, taken - 1);
        let upload = ring.upload(count, taken - 1);
        assert(uploads.take(taken).drop_last() == uploads.take(taken - 1));
        assert(uploads.take(taken).last() == upload);
        assert(batch.subrange(0, upload.start) + batch.subrange(
            upload.start,
            upload.start + upload.len,
        ) == batch.subrange(0, upload.start + upload.len));
    }
}

/// The uploads of a spawn, put end to end, carry the batch: every record
/// once, in the order of the batch.
pub proof fn lemma_uploads_carry_batch(ring: Ring, batch: Seq<Vertex>)
    requires
        ring.valid(),
    ensures
        records_of(ring.uploads(batch.len() as int), batch) == batch,
{
    let count = batch.len() as int;
    lemma_upload_count(ring, count);
    lemma_uploads_carry_prefix(ring, batch, ring.upload_count(count));
    assert(ring.uploads(count).take(ring.upload_count(count)) == ring.uploads(count));
    assert(batch.subrange(0, count) == batch);
}

/// A spawn leaves the ring valid and its sizes as they were.
pub proof fn lemma_spawn_keeps_valid(ring: Ring, batch: Seq<Vertex>)
    requires
        ring.valid(),
    ensures
        ring.spawn(batch).valid(),
        ring.spawn(batch).particles_per_buffer == ring.particles_per_buffer,
        ring.spawn(batch).num_buffers == ring.num_buffers,
        ring.spawn(batch).capacity() == ring.capacity(),
{
    let reached = ring.cursor.1 + batch.len();
    lemma_mod_bound(reached, ring.particles_per_buffer);
    lemma_mod_bound(ring.cursor.0 + reached / ring.particles_per_buffer, ring.num_buffers);
}

/// Spawning an empty batch asks for no upload and leaves the ring as it was:
/// the cursor, every history and so every watermark.
pub proof fn lemma_spawn_nothing(ring: Ring)
    requires
        ring.valid(),
    ensures
        ring.uploads(0) == Seq::<UploadView>::empty(),
        ring.spawn(Seq::empty()) == ring,
{
    let batch = Seq::<Vertex>::empty();
    lemma_fundamental_div_mod_converse(ring.cursor.1, ring.particles_per_buffer, 0, ring.cursor.1);
    lemma_small_mod(ring.cursor.0 as nat, ring.num_buffers as nat);
    assert(ring.uploads(0) == Seq::<UploadView>::empty());
    assert forall|i: int| 0 <= i < ring.written.len() implies #[trigger] ring.spawn(
        batch,
    ).written[i] == ring.written[i] by {
        assert(ring.written[i] + records_into(ring.uploads(0), batch, i) == ring.written[i]);
    }
    assert(ring.spawn(batch).written == ring.written);
}

/// A batch that fits into what is left of the current buffer goes there in
/// one upload, at the cursor. The cursor then moves on by the size of the
/// batch, or to the beginning of the next buffer of the ring if the batch
/// filled this one. Only the current buffer's history grows, by the batch.
pub proof fn lemma_spawn_within_buffer(ring: Ring, batch: Seq<Vertex>)
    requires
        ring.valid(),
        0 < batch.len() <= ring.particles_per_buffer - ring.cursor.1,
    ensures
        ring.uploads(batch.len() as int) == seq![
            UploadView {
                buffer: ring.cursor.0,
                offset: ring.cursor.1,
                start: 0,
                len: batch.len() as int,
            },
        ],
        ring.spawn(batch).cursor == if batch.len() < ring.particles_per_buffer - ring.cursor.1 {
            (ring.cursor.0, ring.cursor.1 + batch.len())
        } else {
            ((ring.cursor.0 + 1) % ring.num_buffers, 0int)
        },
        ring.spawn(batch).written == ring.written.update(
            ring.cursor.0,
            ring.written[ring.cursor.0] + batch,
        ),
{
    let count = batch.len() as int;
    let size = ring.particles_per_buffer;
    let reached = ring.cursor.1 + count;
    let uploads = ring.uploads(count);
    lemma_fundamental_div_mod_converse(reached - 1, size, 0, reached - 1);
    lemma_small_mod(ring.cursor.0 as nat, ring.num_buffers as nat);
    if reached < size {
        lemma_fundamental_div_mod_converse(reached, size, 0, reached);
    } else {
        lemma_fundamental_div_mod_converse(reached, size, 1, 0);
    }
    assert(uploads.len() == 1);
    assert(uploads == seq![
        UploadView {
            buffer: ring.cursor.0,
            offset: ring.cursor.1,
            start: 0,
            len: count,
        },
    ]);
    assert(uploads.last().records(batch) == batch);
    reveal_with_fuel(records_into, 2);
    assert forall|i: int| 0 <= i < ring.written.len() implies #[trigger] ring.spawn(
        batch,
    ).written[i] == ring.written.update(ring.cursor.0, ring.written[ring.cursor.0] + batch)[i] by {
        if i == ring.cursor.0 {
            assert(records_into(uploads, batch, i) == batch);
        } else {
            assert(ring.written[i] + records_into(uploads, batch, i) == ring.written[i]);
        }
    }
    assert(ring.spawn(batch).written == ring.written.update(
        ring.cursor.0,
        ring.written[ring.cursor.0] + batch,
    ));
}

/// A spawn adds to each buffer's history and takes nothing away, so no
/// watermark ever falls: afterwards it is the later of what it was and the
/// latest expiry among the records that this spawn wrote into the buffer,
/// however many of the older records were overwritten.
pub proof fn lemma_spawn_raises_watermarks(ring: Ring, batch: Seq<Vertex>, buffer: int)
    requires
        ring.valid(),
        0 <= buffer < ring.num_buffers,
    ensures
        ring.spawn(batch).written[buffer] == ring.written[buffer] + records_into(
            ring.uploads(batch.len() as int),
            batch,
            buffer,
        ),
        ring.spawn(batch).max_death_time(buffer) >= ring.max_death_time(buffer),
        ring.spawn(batch).max_death_time(buffer) == if max_expiry(
            records_into(ring.uploads(batch.len() as int), batch, buffer),
        ) > ring.max_death_time(buffer) {
            max_expiry(records_into(ring.uploads(batch.len() as int), batch, buffer))
        } else {
            ring.max_death_time(buffer)
        },
{
    lemma_max_expiry_concat(
        ring.written[buffer],
        records_into(ring.uploads(batch.len() as int), batch, buffer),
    );
}

/// After any sequence of spawns the ring is valid and as large as it was,
/// each buffer's history begins with the history it had before, and each
/// watermark is at least what it was before.
pub proof fn lemma_watermarks_never_fall(ring: Ring, batches: Seq<Seq<Vertex>>, buffer: int)
    requires
        ring.valid(),
        0 <= buffer < ring.num_buffers,
    ensures
        spawn_all(ring, batches).valid(),
        spawn_all(ring, batches).particles_per_buffer == ring.particles_per_buffer,
        spawn_all(ring, batches).num_buffers == ring.num_buffers,
        ring.written[buffer].is_prefix_of(spawn_all(ring, batches).written[buffer]),
        spawn_all(ring, batches).max_death_time(buffer) >= ring.max_death_time(buffer),
    decreases batches.len(),
{
    if batches.len() > 0 {
        let earlier = spawn_all(ring, batches.drop_last());
        lemma_watermarks_never_fall(ring, batches.drop_last(), buffer);
        lemma_spawn_keeps_valid(earlier, batches.last());
        lemma_spawn_raises_watermarks(earlier, batches.last(), buffer);
    }
}

/// A buffer whose watermark lies before `time` holds no particle that is
/// still alive at `time`: every record ever written into it has expired.
pub proof fn lemma_dead_after_watermark(ring: Ring, buffer: int, time: int)
    requires
        ring.valid(),
        0 <= buffer < ring.num_buffers,
        time > ring.max_death_time(buffer),
    ensures
        forall|k: int|
            0 <= k < ring.written[buffer].len() ==> (#[trigger] ring.written[buffer][k]).expiry()
                < time,
{
    lemma_max_expiry_is_latest(ring.written[buffer]);
}

/// An upload writes its records to consecutive slots, each to the slot at
/// which the cursor stands after the records before it.
pub proof fn lemma_upload_follows_cursor(ring: Ring, count: int, j: int, record: int)
    requires
        ring.valid(),
        0 <= j < ring.upload_count(count),
        ring.upload(count, j).start <= record < ring.upload(count, j).start + ring.upload(
            count,
            j,
        ).len,
    ensures
        ({
            let upload = ring.upload(count, j);
            ring.cursor_after(record) == (upload.buffer, upload.offset + (record - upload.start))
        }),
{
    let size = ring.particles_per_buffer;
    let upload = ring.upload(count, j);
    lemma_upload_shape(ring, count, j);
    assert((j + 1) * size == j * size + size) by (nonlinear_arith);
    lemma_fundamental_div_mod_converse(
        ring.cursor.1 + record,
        size,
        j,
        upload.offset + (record - upload.start),
    );
}

/// Every record of a batch is carried by one upload, the one for the buffer
/// that the cursor has reached after the records before it; the result is
/// the index of that upload.
pub proof fn lemma_record_is_uploaded(ring: Ring, count: int, record: int) -> (j: int)
    requires
        ring.valid(),
        0 <= record < count,
    ensures
        0 <= j < ring.upload_count(count),
        j == (ring.cursor.1 + record) / ring.particles_per_buffer,
        ({
            let upload = ring.upload(count, j);
            &&& upload.start <= record < upload.start + upload.len
            &&& ring.cursor_after(record) == (
                upload.buffer,
                upload.offset + (record - upload.start),
            )
        }),
{
    let size = ring.particles_per_buffer;
    let reached = ring.cursor.1 + record;
    let j = reached / size;
    lemma_fundamental_div_mod(reached, size);
    lemma_mod_bound(reached, size);
    vstd::arithmetic::div_mod::lemma_div_pos_is_pos(reached, size);
    vstd::arithmetic::div_mod::lemma_div_is_ordered(reached, ring.cursor.1 + count - 1, size);
    assert(size * j == j * size) by (nonlinear_arith);
    assert((j + 1) * size == j * size + size) by (nonlinear_arith);
    if j == 0 {
        assert(0 * size == 0) by (nonlinear_arith);
    }
    lemma_upload_shape(ring, count, j);
    lemma_upload_follows_cursor(ring, count, j, record);
    j
}

/// Moving the cursor on by `first` slots and then by `second` slots is
/// moving it on by `first + second` slots.
pub proof fn lemma_cursor_steps_add(ring: Ring, next: Ring, first: int, second: int)
    requires
        ring.valid(),
        0 <= first,
        0 <= second,
        next.particles_per_buffer == ring.particles_per_buffer,
        next.num_buffers == ring.num_buffers,
        next.cursor == ring.cursor_after(first),
    ensures
        next.cursor_after(second) == ring.cursor_after(first + second),
{
    let size = ring.particles_per_buffer;
    let reached = ring.cursor.1 + first;
    let further = reached % size + second;
    lemma_fundamental_div_mod(reached, size);
    lemma_fundamental_div_mod(further, size);
    lemma_mod_bound(reached, size);
    lemma_mod_bound(further, size);
    assert((reached / size + further / size) * size == size * (reached / size) + size * (further
        / size)) by (nonlinear_arith);
    lemma_fundamental_div_mod_converse(
        reached + second,
        size,
        reached / size + further / size,
        further % size,
    );
    lemma_add_mod_noop(ring.cursor.0 + reached / size, further / size, ring.num_buffers);
    lemma_add_mod_noop_right(
        (ring.cursor.0 + reached / size) % ring.num_buffers,
        further / size,
        ring.num_buffers,
    );
    lemma_mod_twice(ring.cursor.0 + reached / size, ring.num_buffers);
}

/// Within one upload, the records that land in a buffer are all the
/// upload's records or none of them.
proof fn lemma_landed_within_upload(
    ring: Ring,
    batch: Seq<Vertex>,
    buffer: int,
    j: int,
    taken: int,
)
    requires
        ring.valid(),
        0 <= j < ring.upload_count(batch.len() as int),
        0 <= taken <= ring.upload(batch.len() as int, j).len,
    ensures
        ({
            let upload = ring.upload(batch.len() as int, j);
            landed(ring, batch.take(upload.start + taken), buffer) == landed(
                ring,
                batch.take(upload.start),
                buffer,
            ) + if upload.buffer == buffer {
                batch.subrange(upload.start, upload.start + taken)
            } else {
                Seq::empty()
            }
        }),
    decreases taken,
{
    let count = batch.len() as int;
    let upload = ring.upload(count, j);
    let before = landed(ring, batch.take(upload.start), buffer);
    lemma_upload_shape(ring, count, j);
    if taken == 0 {
        assert(before + batch.subrange(upload.start, upload.start) == before);
        assert(before + Seq::<Vertex>::empty() == before);
    } else {
        let record = upload.start + taken - 1;
        lemma_landed_within_upload(ring, batch, buffer, j, taken - 1);
        lemma_upload_follows_cursor(ring, count, j, record);
        assert(batch.take(record + 1).drop_last() == batch.take(record));
        assert(batch.take(record + 1).last() == batch[record]);
        if upload.buffer == buffer {
            assert((before + batch.subrange(upload.start, record)).push(batch[record]) == before
                + batch.subrange(upload.start, record + 1));
        }
    }
}

/// The first `taken` uploads of a spawn carry into a buffer what lands in it
/// of the records before the next upload.
proof fn lemma_uploads_carry_what_lands_so_far(
    ring: Ring,
    batch: Seq<Vertex>,
    buffer: int,
    taken: int,
)
    requires
        ring.valid(),
        0 <= taken <= ring.upload_count(batch.len() as int),
    ensures
        records_into(ring.uploads(batch.len() as int).take(taken), batch, buffer) == landed(
            ring,
            batch.take(
                if taken == ring.upload_count(batch.len() as int) {
                    batch.len() as int
                } else {
                    ring.upload(batch.len() as int, taken).start
                },
            ),
            buffer,
        ),
    decreases taken,
{
    let count = batch.len() as int;
    let uploads = ring.uploads(count);
    lemma_upload_count(ring, count);
    if taken == 0 {
        if 0 < ring.upload_count(count) {
            lemma_upload_shape(ring, count, 0);
        }
        assert(batch.take(0) == Seq::<Vertex>::empty());
    } else {
        let upload = ring.upload(count, taken - 1);
        lemma_uploads_carry_what_lands_so_far(ring, batch, buffer, taken - 1);
        lemma_upload_shape(ring, count, taken - 1);
        lemma_landed_within_upload(ring, batch, buffer, taken - 1, upload.len);
        assert(uploads.take(taken).drop_last() == uploads.take(taken - 1));
        assert(uploads.take(taken).last() == upload);
        if upload.buffer != buffer {
            assert(landed(ring, batch.take(upload.start), buffer) + Seq::<Vertex>::empty()
                == landed(ring, batch.take(upload.start), buffer));
        }
    }
}

/// What the uploads of a spawn carry into a buffer are the records that land
/// in it when the batch is written record by record from the cursor on.
pub proof fn lemma_uploads_carry_what_lands(ring: Ring, batch: Seq<Vertex>, buffer: int)
    requires
        ring.valid(),
    ensures
        records_into(ring.uploads(batch.len() as int), batch, buffer) == landed(
            ring,
            batch,
            buffer,
        ),
{
    let count = batch.len() as int;
    lemma_upload_count(ring, count);
    lemma_uploads_carry_what_lands_so_far(ring, batch, buffer, ring.upload_count(count));
    assert(ring.uploads(count).take(ring.upload_count(count)) == ring.uploads(count));
    assert(batch.take(count) == batch);
}

/// What lands in a buffer of two batches written one after the other is
/// what lands of the first, then what lands of the second once the cursor
/// has moved past the first.
proof fn lemma_landed_in_two(
    ring: Ring,
    next: Ring,
    first: Seq<Vertex>,
    second: Seq<Vertex>,
    buffer: int,
)
    requires
        ring.valid(),
        next.particles_per_buffer == ring.particles_per_buffer,
        next.num_buffers == ring.num_buffers,
        next.cursor == ring.cursor_after(first.len() as int),
    ensures
        landed(ring, first + second, buffer) == landed(ring, first, buffer) + landed(
            next,
            second,
            buffer,
        ),
    decreases second.len(),
{
    if second.len() == 0 {
        assert(first + second == first);
        assert(landed(ring, first, buffer) + Seq::<Vertex>::empty() == landed(
            ring,
            first,
            buffer,
        ));
    } else {
        lemma_landed_in_two(ring, next, first, second.drop_last(), buffer);
        lemma_cursor_steps_add(ring, next, first.len() as int, second.len() - 1);
        assert((first + second).drop_last() == first + second.drop_last());
        assert((first + second).last() == second.last());
        let earlier = landed(next, second.drop_last(), buffer);
        assert((landed(ring, first, buffer) + earlier).push(second.last()) == landed(
            ring,
            first,
            buffer,
        ) + earlier.push(second.last()));
    }
}

/// Spawning a batch in two parts, one after the other, leaves the ring as
/// spawning it at once does: the cursor, and every buffer's history and
/// watermark. Only the uploads may be cut differently.
pub proof fn lemma_spawn_in_two(ring: Ring, first: Seq<Vertex>, second: Seq<Vertex>)
    requires
        ring.valid(),
    ensures
        ring.spawn(first).spawn(second) == ring.spawn(first + second),
{
    let next = ring.spawn(first);
    let both = first + second;
    lemma_spawn_keeps_valid(ring, first);
    lemma_cursor_steps_add(ring, next, first.len() as int, second.len() as int);
    assert forall|i: int| 0 <= i < ring.written.len() implies #[trigger] next.spawn(
        second,
    ).written[i] == ring.spawn(both).written[i] by {
        lemma_uploads_carry_what_lands(ring, first, i);
        lemma_uploads_carry_what_lands(next, second, i);
        lemma_uploads_carry_what_lands(ring, both, i);
        lemma_landed_in_two(ring, next, first, second, i);
        assert(ring.written[i] + landed(ring, first, i) + landed(next, second, i)
            == ring.written[i] + (landed(ring, first, i) + landed(next, second, i)));
    }
    assert(next.spawn(second).written == ring.spawn(both).written);
}

/// The ring as it is created is valid and in step, with every watermark at
/// zero.
pub proof fn lemma_empty_ring(particles_per_buffer: int, num_buffers: int)
    requires
        particles_per_buffer > 0,
        num_buffers > 0,
    ensures
        Ring::empty(particles_per_buffer, num_buffers).valid(),
        Ring::empty(particles_per_buffer, num_buffers).in_step(),
        Ring::empty(particles_per_buffer, num_buffers).cursor == (0int, 0int),
        Ring::empty(particles_per_buffer, num_buffers).capacity() == num_buffers
            * particles_per_buffer,
        forall|i: int|
            0 <= i < num_buffers ==> Ring::empty(particles_per_buffer, num_buffers).max_death_time(
                i,
            ) == 0,
{
    lemma_small_mod(0, particles_per_buffer as nat);
}

/// A spawn into a ring in step leaves it in step; so a ring that was created
/// empty and only spawned into is always in step.
pub proof fn lemma_spawn_keeps_in_step(ring: Ring, batch: Seq<Vertex>)
    requires
        ring.valid(),
        ring.in_step(),
    ensures
        ring.spawn(batch).in_step(),
    decreases batch.len(),
{
    let size = ring.particles_per_buffer;
    if batch.len() == 0 {
        lemma_spawn_nothing(ring);
        assert(batch == Seq::<Vertex>::empty());
    } else {
        let earlier = ring.spawn(batch.drop_last());
        let last = seq![batch.last()];
        lemma_spawn_keeps_in_step(ring, batch.drop_last());
        lemma_spawn_keeps_valid(ring, batch.drop_last());
        lemma_spawn_in_two(ring, batch.drop_last(), last);
        assert(batch.drop_last() + last == batch);
        lemma_spawn_within_buffer(earlier, last);
        lemma_mod_bound(earlier.cursor.0 + 1, ring.num_buffers);
        let current = earlier.cursor.0;
        let length = earlier.written[current].len() as int;
        lemma_fundamental_div_mod(length, size);
        if earlier.cursor.1 + 1 < size {
            lemma_fundamental_div_mod_converse(
                length + 1,
                size,
                length / size,
                earlier.cursor.1 + 1,
            );
        } else {
            assert(size * (length / size + 1) == size * (length / size) + size)
                by (nonlinear_arith);
            lemma_fundamental_div_mod_converse(length + 1, size, length / size + 1, 0);
        }
        assert forall|i: int| 0 <= i < ring.num_buffers implies (#[trigger] earlier.spawn(
            last,
        ).written[i]).len() as int % size == if i == earlier.spawn(last).cursor.0 {
            earlier.spawn(last).cursor.1
        } else {
            0
        } by {
            if i != current {
                assert(earlier.spawn(last).written[i] == earlier.written[i]);
            }
        }
    }
}

/// Spawning a single record stores it at the cursor and leaves every other
/// slot of the ring as it was.
pub proof fn lemma_spawn_one_stores_at_cursor(
    ring: Ring,
    record: Vertex,
    buffer: int,
    slot: int,
)
    requires
        ring.valid(),
        ring.in_step(),
        0 <= buffer < ring.num_buffers,
        0 <= slot < ring.particles_per_buffer,
    ensures
        ring.spawn(seq![record]).stored(buffer, slot) == if (buffer, slot) == ring.cursor {
            Some(record)
        } else {
            ring.stored(buffer, slot)
        },
{
    let size = ring.particles_per_buffer;
    let batch = seq![record];
    let current = ring.cursor.0;
    let length = ring.written[current].len() as int;
    lemma_spawn_within_buffer(ring, batch);
    lemma_fundamental_div_mod(length, size);
    if ring.cursor.1 + 1 < size {
        lemma_fundamental_div_mod_converse(length + 1, size, length / size, ring.cursor.1 + 1);
    } else {
        assert(size * (length / size + 1) == size * (length / size) + size) by (nonlinear_arith);
        lemma_fundamental_div_mod_converse(length + 1, size, length / size + 1, 0);
    }
    let history = ring.written[current];
    let grown = ring.spawn(batch).written[current];
    assert(length % size == ring.cursor.1);
    assert(grown == history.push(record)) by {
        assert(history + batch == history.push(record));
    }
    if buffer != current {
        assert(ring.spawn(batch).written[buffer] == ring.written[buffer]);
    } else {
        let begun = length - length % size;
        if ring.cursor.1 + 1 < size {
            assert((length + 1) % size == ring.cursor.1 + 1);
            if slot < ring.cursor.1 {
                assert(grown[begun + slot] == history[begun + slot]);
            } else if slot > ring.cursor.1 && begun > 0 {
                assert(size * (length / size) >= size) by (nonlinear_arith)
                    requires
                        size * (length / size) > 0,
                        size > 0,
                ;
                assert(grown[begun - size + slot] == history[begun - size + slot]);
            }
        } else {
            assert((length + 1) % size == 0);
            if slot < ring.cursor.1 {
                assert(grown[begun + slot] == history[begun + slot]);
            }
        }
    }
}

/// After a spawn, a slot holds the last record of the batch that was written
/// to it, and what it held before if none was.
pub proof fn lemma_spawn_stores_last_written(
    ring: Ring,
    batch: Seq<Vertex>,
    buffer: int,
    slot: int,
)
    requires
        ring.valid(),
        ring.in_step(),
        0 <= buffer < ring.num_buffers,
        0 <= slot < ring.particles_per_buffer,
    ensures
        ring.spawn(batch).stored(buffer, slot) == match last_written_to(
            ring,
            batch.len() as int,
            buffer,
            slot,
        ) {
            Some(record) => Some(batch[record]),
            None => ring.stored(buffer, slot),
        },
        last_written_to(ring, batch.len() as int, buffer, slot) matches Some(record) ==> 0
            <= record < batch.len(),
    decreases batch.len(),
{
    if batch.len() == 0 {
        lemma_spawn_nothing(ring);
        assert(batch == Seq::<Vertex>::empty());
    } else {
        let earlier = ring.spawn(batch.drop_last());
        let last = seq![batch.last()];
        lemma_spawn_stores_last_written(ring, batch.drop_last(), buffer, slot);
        lemma_spawn_keeps_valid(ring, batch.drop_last());
        lemma_spawn_keeps_in_step(ring, batch.drop_last());
        lemma_spawn_in_two(ring, batch.drop_last(), last);
        assert(batch.drop_last() + last == batch);
        lemma_spawn_one_stores_at_cursor(earlier, batch.last(), buffer, slot);
    }
}

/// Two records of a batch that are less than the capacity of the ring apart
/// are written to different slots.
pub proof fn lemma_slots_differ(ring: Ring, first: int, second: int)
    requires
        ring.valid(),
        0 <= first < second < first + ring.capacity(),
    ensures
        ring.cursor_after(first) != ring.cursor_after(second),
{
    let size = ring.particles_per_buffer;
    let rounds = ring.num_buffers;
    let near = ring.cursor.1 + first;
    let far = ring.cursor.1 + second;
    if ring.cursor_after(first) == ring.cursor_after(second) {
        lemma_fundamental_div_mod(near, size);
        lemma_fundamental_div_mod(far, size);
        let ahead = far / size - near / size;
        assert(far - near == size * ahead) by (nonlinear_arith)
            requires
                near == size * (near / size) + near % size,
                far == size * (far / size) + far % size,
                near % size == far % size,
                ahead == far / size - near / size,
        ;
        assert(0 < ahead < rounds) by (nonlinear_arith)
            requires
                0 < size * ahead < rounds * size,
                size > 0,
        ;
        let base = ring.cursor.0 + near / size;
        lemma_add_mod_noop(base, ahead, rounds);
        lemma_small_mod(ahead as nat, rounds as nat);
        lemma_mod_bound(base, rounds);
        // `base % rounds + ahead` lies less than `rounds` above `base % rounds`, so it
        // cannot reduce to it.
        if base % rounds + ahead < rounds {
            lemma_small_mod((base % rounds + ahead) as nat, rounds as nat);
        } else {
            lemma_fundamental_div_mod_converse(
                base % rounds + ahead,
                rounds,
                1,
                base % rounds + ahead - rounds,
            );
        }
        assert(false);
    }
}

/// What is written last in a batch stays: each of the last records of a
/// batch, as many as the ring has slots, is stored after the spawn at the
/// slot that the cursor had reached before it.
pub proof fn lemma_spawn_stores_latest(ring: Ring, batch: Seq<Vertex>, record: int)
    requires
        ring.valid(),
        ring.in_step(),
        0 <= record < batch.len(),
        batch.len() - ring.capacity() <= record,
    ensures
        ring.spawn(batch).stored(ring.cursor_after(record).0, ring.cursor_after(record).1)
            == Some(batch[record]),
{
    let slot = ring.cursor_after(record);
    lemma_mod_bound(ring.cursor.1 + record, ring.particles_per_buffer);
    lemma_mod_bound(
        ring.cursor.0 + (ring.cursor.1 + record) / ring.particles_per_buffer,
        ring.num_buffers,
    );
    lemma_spawn_stores_last_written(ring, batch, slot.0, slot.1);
    lemma_last_written_stays(ring, batch.len() as int, record);
}

/// A record is the last that is written to its slot as long as fewer records
/// follow it than the ring has slots.
proof fn lemma_last_written_stays(ring: Ring, count: int, record: int)
    requires
        ring.valid(),
        0 <= record < count <= record + ring.capacity(),
    ensures
        last_written_to(ring, count, ring.cursor_after(record).0, ring.cursor_after(record).1)
            == Some(record),
    decreases count,
{
    if count > record + 1 {
        lemma_slots_differ(ring, record, count - 1);
        lemma_last_written_stays(ring, count - 1, record);
    }
}

} // verus!
