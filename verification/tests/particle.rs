use rendology::particle::{
    max_death_time, Config, Shader, System, Upload, Vertex, PARTICLES_PER_BUFFER,
};

fn small() -> System {
    assert!(Config { particles_per_buffer: 4, num_buffers: 2 }.is_valid());
    System::create(&Config { particles_per_buffer: 4, num_buffers: 2 })
}

/// `count` particles spawned at `spawn_time` that live for `life_duration`.
fn batch(count: usize, spawn_time: u64, life_duration: u64) -> Vec<Vertex> {
    vec![Vertex { spawn_time, life_duration }; count]
}

/// Carries out `uploads` of `particles` on `storage`, which stands for the
/// buffers that the caller keeps.
fn carry_out(storage: &mut Vec<Vec<Option<Vertex>>>, uploads: &[Upload], particles: &[Vertex]) {
    for upload in uploads {
        for k in 0..upload.len {
            storage[upload.buffer][upload.offset + k] = Some(particles[upload.start + k]);
        }
    }
}

fn watermarks(system: &System) -> Vec<u128> {
    system.buffers().iter().map(|buffer| buffer.max_death_time()).collect()
}

#[test]
fn default_config_is_ten_buffers_of_ten_thousand() {
    let config = Config::default();
    assert_eq!(config.particles_per_buffer, 10000);
    assert_eq!(config.num_buffers, 10);
    assert_eq!(PARTICLES_PER_BUFFER, 10000);
    assert!(config.is_valid());
}

#[test]
fn config_with_a_zero_size_is_not_valid() {
    assert!(!Config { particles_per_buffer: 0, num_buffers: 2 }.is_valid());
    assert!(!Config { particles_per_buffer: 4, num_buffers: 0 }.is_valid());
    assert!(!Config { particles_per_buffer: 0, num_buffers: 0 }.is_valid());
    assert!(Config { particles_per_buffer: 1, num_buffers: 1 }.is_valid());
}

#[test]
fn created_system_is_empty() {
    let system = small();
    assert_eq!(system.next_index(), (0, 0));
    assert_eq!(system.capacity(), 8);
    assert_eq!(system.config().particles_per_buffer, 4);
    assert_eq!(system.config().num_buffers, 2);
    assert_eq!(system.buffers().len(), 2);
    assert_eq!(watermarks(&system), vec![0, 0]);
}

#[test]
fn created_default_system_is_empty() {
    let system = System::create(&Config::default());
    assert_eq!(system.next_index(), (0, 0));
    assert_eq!(system.capacity(), 100000);
    assert_eq!(system.buffers().len(), 10);
    assert!(watermarks(&system).iter().all(|&time| time == 0));
}

#[test]
fn capacity_does_not_overflow() {
    let system = System::create(&Config { particles_per_buffer: usize::MAX, num_buffers: 3 });
    assert_eq!(system.capacity(), 3 * (usize::MAX as u128));
}

#[test]
fn death_time_is_spawn_time_plus_life_duration() {
    assert_eq!(Vertex { spawn_time: 5, life_duration: 7 }.death_time(), 12);
    assert_eq!(Vertex { spawn_time: 0, life_duration: 0 }.death_time(), 0);
    assert_eq!(
        Vertex { spawn_time: u64::MAX, life_duration: u64::MAX }.death_time(),
        2 * (u64::MAX as u128)
    );
}

#[test]
fn max_death_time_of_a_range() {
    let particles = vec![
        Vertex { spawn_time: 1, life_duration: 9 },
        Vertex { spawn_time: 4, life_duration: 2 },
        Vertex { spawn_time: 3, life_duration: 30 },
        Vertex { spawn_time: 8, life_duration: 1 },
    ];
    assert_eq!(max_death_time(&particles, 0, 4), 33);
    assert_eq!(max_death_time(&particles, 0, 2), 10);
    assert_eq!(max_death_time(&particles, 1, 2), 6);
    assert_eq!(max_death_time(&particles, 3, 4), 9);
    assert_eq!(max_death_time(&particles, 2, 2), 0);
    assert_eq!(max_death_time(&[], 0, 0), 0);
}

#[test]
fn batch_smaller_than_the_rest_of_the_buffer_stays_in_it() {
    let mut system = small();
    system.spawn(&batch(1, 0, 1));
    let uploads = system.spawn(&batch(2, 0, 1));
    assert_eq!(uploads, vec![Upload { buffer: 0, offset: 1, start: 0, len: 2 }]);
    assert_eq!(system.next_index(), (0, 3));
}

#[test]
fn batch_that_fills_the_buffer_moves_to_the_next() {
    let mut system = small();
    system.spawn(&batch(1, 0, 1));
    let uploads = system.spawn(&batch(3, 0, 1));
    assert_eq!(uploads, vec![Upload { buffer: 0, offset: 1, start: 0, len: 3 }]);
    assert_eq!(system.next_index(), (1, 0));
}

#[test]
fn batch_that_fills_the_last_buffer_moves_to_the_first() {
    let mut system = small();
    system.spawn(&batch(6, 0, 1));
    assert_eq!(system.next_index(), (1, 2));
    let uploads = system.spawn(&batch(2, 0, 1));
    assert_eq!(uploads, vec![Upload { buffer: 1, offset: 2, start: 0, len: 2 }]);
    assert_eq!(system.next_index(), (0, 0));
}

#[test]
fn batch_is_split_at_buffer_ends() {
    let mut system = System::create(&Config { particles_per_buffer: 4, num_buffers: 3 });
    system.spawn(&batch(3, 0, 1));
    let uploads = system.spawn(&batch(6, 0, 1));
    assert_eq!(
        uploads,
        vec![
            Upload { buffer: 0, offset: 3, start: 0, len: 1 },
            Upload { buffer: 1, offset: 0, start: 1, len: 4 },
            Upload { buffer: 2, offset: 0, start: 5, len: 1 },
        ]
    );
    assert_eq!(system.next_index(), (2, 1));
}

#[test]
fn uploads_carry_the_batch_in_order() {
    let mut system = System::create(&Config { particles_per_buffer: 3, num_buffers: 4 });
    system.spawn(&batch(2, 0, 0));
    let particles: Vec<Vertex> =
        (0..20).map(|i| Vertex { spawn_time: i, life_duration: 100 - i }).collect();
    let uploads = system.spawn(&particles);
    assert_eq!(uploads.len(), 8);
    let mut carried = Vec::new();
    for upload in &uploads {
        assert!(upload.len >= 1 && upload.len <= 3);
        assert!(upload.offset + upload.len <= 3);
        assert!(upload.buffer < 4);
        carried.extend_from_slice(&particles[upload.start..upload.start + upload.len]);
    }
    assert_eq!(carried, particles);
}

#[test]
fn wraparound_example() {
    let mut system = small();
    let mut storage = vec![vec![None; 4]; 2];
    let first: Vec<Vertex> = (0..5).map(|i| Vertex { spawn_time: i, life_duration: 1 }).collect();
    let uploads = system.spawn(&first);
    assert_eq!(
        uploads,
        vec![
            Upload { buffer: 0, offset: 0, start: 0, len: 4 },
            Upload { buffer: 1, offset: 0, start: 4, len: 1 },
        ]
    );
    assert_eq!(system.next_index(), (1, 1));
    carry_out(&mut storage, &uploads, &first);
    assert_eq!(storage[0], vec![Some(first[0]), Some(first[1]), Some(first[2]), Some(first[3])]);
    assert_eq!(storage[1], vec![Some(first[4]), None, None, None]);

    let second: Vec<Vertex> =
        (5..8).map(|i| Vertex { spawn_time: i, life_duration: 1 }).collect();
    let uploads = system.spawn(&second);
    assert_eq!(uploads, vec![Upload { buffer: 1, offset: 1, start: 0, len: 3 }]);
    assert_eq!(system.next_index(), (0, 0));
    carry_out(&mut storage, &uploads, &second);
    assert_eq!(
        storage[1],
        vec![Some(first[4]), Some(second[0]), Some(second[1]), Some(second[2])]
    );
}

#[test]
fn overwrite_example() {
    let mut system = small();
    let mut storage = vec![vec![None; 4]; 2];
    let particles: Vec<Vertex> =
        (0..9).map(|i| Vertex { spawn_time: i, life_duration: 1 }).collect();
    let uploads = system.spawn(&particles);
    assert_eq!(
        uploads,
        vec![
            Upload { buffer: 0, offset: 0, start: 0, len: 4 },
            Upload { buffer: 1, offset: 0, start: 4, len: 4 },
            Upload { buffer: 0, offset: 0, start: 8, len: 1 },
        ]
    );
    assert_eq!(system.next_index(), (0, 1));
    carry_out(&mut storage, &uploads, &particles);
    assert_eq!(
        storage[0],
        vec![Some(particles[8]), Some(particles[1]), Some(particles[2]), Some(particles[3])]
    );
    assert_eq!(
        storage[1],
        vec![Some(particles[4]), Some(particles[5]), Some(particles[6]), Some(particles[7])]
    );
    assert_eq!(watermarks(&system), vec![9, 8]);
}

#[test]
fn spawning_in_two_parts_is_spawning_at_once() {
    let particles: Vec<Vertex> =
        (0..23).map(|i| Vertex { spawn_time: i, life_duration: (i * 5) % 17 }).collect();
    for cut in 0..=particles.len() {
        let config = Config { particles_per_buffer: 3, num_buffers: 4 };
        let mut at_once = System::create(&config);
        let mut in_two = System::create(&config);
        at_once.spawn(&particles[..2]);
        in_two.spawn(&particles[..2]);
        at_once.spawn(&particles);
        in_two.spawn(&particles[..cut]);
        in_two.spawn(&particles[cut..]);
        assert_eq!(in_two.next_index(), at_once.next_index());
        assert_eq!(watermarks(&in_two), watermarks(&at_once));
    }
}

#[test]
fn batch_of_several_rounds() {
    let mut system = small();
    system.spawn(&batch(3, 0, 1));
    let uploads = system.spawn(&batch(22, 0, 1));
    assert_eq!(uploads.len(), 7);
    assert_eq!(uploads[0], Upload { buffer: 0, offset: 3, start: 0, len: 1 });
    assert_eq!(uploads[1], Upload { buffer: 1, offset: 0, start: 1, len: 4 });
    assert_eq!(uploads[5], Upload { buffer: 1, offset: 0, start: 17, len: 4 });
    assert_eq!(uploads[6], Upload { buffer: 0, offset: 0, start: 21, len: 1 });
    assert_eq!(system.next_index(), (0, 1));
}

#[test]
fn empty_batch_changes_nothing() {
    let mut system = small();
    system.spawn(&batch(5, 10, 20));
    let cursor = system.next_index();
    let before = watermarks(&system);
    let uploads = system.spawn(&[]);
    assert!(uploads.is_empty());
    assert_eq!(system.next_index(), cursor);
    assert_eq!(watermarks(&system), before);
}

#[test]
fn empty_batch_on_a_new_system() {
    let mut system = small();
    assert!(system.spawn(&[]).is_empty());
    assert_eq!(system.next_index(), (0, 0));
    assert_eq!(watermarks(&system), vec![0, 0]);
}

#[test]
fn watermark_is_the_latest_death_time_written() {
    let mut system = small();
    let particles = vec![
        Vertex { spawn_time: 10, life_duration: 5 },
        Vertex { spawn_time: 10, life_duration: 50 },
        Vertex { spawn_time: 11, life_duration: 7 },
        Vertex { spawn_time: 12, life_duration: 1 },
        Vertex { spawn_time: 12, life_duration: 30 },
        Vertex { spawn_time: 13, life_duration: 2 },
    ];
    system.spawn(&particles);
    assert_eq!(watermarks(&system), vec![60, 42]);
}

#[test]
fn watermark_only_counts_the_buffers_written() {
    let mut system = System::create(&Config { particles_per_buffer: 2, num_buffers: 3 });
    system.spawn(&batch(3, 100, 1));
    assert_eq!(watermarks(&system), vec![101, 101, 0]);
}

#[test]
fn watermark_does_not_fall_when_slots_are_overwritten() {
    let mut system = small();
    system.spawn(&batch(8, 0, 1000));
    assert_eq!(watermarks(&system), vec![1000, 1000]);
    system.spawn(&batch(8, 1, 5));
    assert_eq!(system.next_index(), (0, 0));
    assert_eq!(watermarks(&system), vec![1000, 1000]);
    system.spawn(&batch(4, 2, 2000));
    assert_eq!(watermarks(&system), vec![2002, 1000]);
}

#[test]
fn watermarks_never_fall_over_many_spawns() {
    let mut system = System::create(&Config { particles_per_buffer: 3, num_buffers: 3 });
    let mut before = watermarks(&system);
    for round in 0..40u64 {
        let life = (round * 37) % 11;
        system.spawn(&batch((round % 5) as usize, round, life));
        let after = watermarks(&system);
        for (old, new) in before.iter().zip(after.iter()) {
            assert!(new >= old);
        }
        before = after;
    }
}

#[test]
fn watermark_holds_the_sum_of_the_largest_times() {
    let mut system = small();
    system.spawn(&batch(1, u64::MAX, u64::MAX));
    assert_eq!(watermarks(&system), vec![2 * (u64::MAX as u128), 0]);
}

#[test]
fn spawn_agrees_with_writing_one_record_at_a_time() {
    for particles_per_buffer in 1..5usize {
        for num_buffers in 1..4usize {
            let mut system = System::create(&Config { particles_per_buffer, num_buffers });
            let mut slot = 0usize;
            let mut latest = vec![0u128; num_buffers];
            let mut clock = 0u64;
            for size in [0usize, 1, 2, 7, 3, 0, 12, 5, 1, 30, 4] {
                let particles: Vec<Vertex> = (0..size as u64)
                    .map(|i| Vertex { spawn_time: clock + i, life_duration: (i * 7 + clock) % 13 })
                    .collect();
                clock += size as u64;
                let uploads = system.spawn(&particles);
                let mut next = 0usize;
                for upload in &uploads {
                    assert_eq!(upload.start, next);
                    for k in 0..upload.len {
                        assert_eq!(upload.buffer, slot / particles_per_buffer);
                        assert_eq!(upload.offset + k, slot % particles_per_buffer);
                        let time = particles[upload.start + k].death_time();
                        latest[upload.buffer] = latest[upload.buffer].max(time);
                        slot = (slot + 1) % (particles_per_buffer * num_buffers);
                    }
                    next += upload.len;
                }
                assert_eq!(next, particles.len());
                assert_eq!(
                    system.next_index(),
                    (slot / particles_per_buffer, slot % particles_per_buffer)
                );
                assert_eq!(watermarks(&system), latest);
            }
        }
    }
}

#[test]
fn shader_is_the_same_marker_for_every_system() {
    let system = small();
    let other = System::create(&Config::default());
    assert_eq!(system.shader(), Shader);
    assert_eq!(system.shader(), other.shader());
}
