use amdahls_lie::{
    build_queues, num_to_bitmask, reassemble_sums, run_section, singlethreaded,
    singlethreaded_batched, Config, Request,
};
use rand::{Rng, SeedableRng};
use rand_chacha::ChaCha8Rng;

fn primes() -> Vec<usize> {
    vec![
        2, 3, 5, 7, 11, 13, 17, 19, 23, 29, 31, 37, 41, 43, 47, 53, 59, 61, 67, 71, 73, 79, 83,
        89, 97, 101, 103, 107, 109, 113, 127, 131, 137, 139, 149, 151, 157, 163, 167, 173, 179,
        181, 191, 193, 197, 199, 211, 223, 227, 229, 233, 239, 241, 251, 257, 263, 269, 271, 277,
        281, 283, 293, 307, 311, 313, 317, 331, 337, 347, 349, 353, 359, 367, 373, 379, 383, 389,
        397, 401, 409, 419, 421, 431, 433, 439, 443, 449, 457, 461, 463, 467, 479, 487, 491, 499,
        503, 509, 521, 523, 541,
    ]
}

fn config() -> Config {
    Config {
        num_bytes_per_section: 256 * (1 << 10),
        num_sections: 4,
        num_iterations: 100_000,
    }
}

fn data_set() -> &'static [u8] {
    let cfg = config();

    let mut rng = ChaCha8Rng::seed_from_u64(0x1337);
    let mut data_set = Vec::with_capacity(cfg.num_bytes_per_section * cfg.num_sections);

    for _ in 0..cfg.num_bytes_per_section * cfg.num_sections {
        data_set.push(rng.gen());
    }

    data_set.leak()
}

fn orders() -> Vec<Request> {
    let cfg = config();
    let primes = primes();

    const NUM_ORDERS: usize = 1_000;

    let mut rng = ChaCha8Rng::seed_from_u64(1337);
    let mut orders = Vec::with_capacity(NUM_ORDERS);

    for _ in 0..NUM_ORDERS {
        let start = primes[rng.gen_range(0..100)] % cfg.num_bytes_per_section;
        let section = rng.gen_range(0..cfg.num_sections);

        orders.push(Request { start, section });
    }

    orders
}

/// The parallel strategy's decomposition, run without threads: split into
/// per-section queues, walk each queue against its own section slice, then
/// reassemble the submission order.
fn parallel_pipeline(set: &'static [u8], requests: &[Request], cfg: Config) -> Vec<u8> {
    let queues = build_queues(requests, cfg);
    let mask = num_to_bitmask(cfg.num_bytes_per_section);
    let mut vec_of_sums = Vec::with_capacity(cfg.num_sections);
    for (i, queue) in queues.iter().enumerate() {
        vec_of_sums.push(run_section(set, i, queue, mask, cfg));
    }
    reassemble_sums(set, requests, cfg, &vec_of_sums)
}

#[test]
fn single() {
    let start = std::time::SystemTime::now();

    let set = data_set();
    let orders = orders();

    singlethreaded(set, &orders, config());

    let duration = start.elapsed().unwrap();

    println!("Took: {}s", duration.as_secs_f32());
}

#[test]
fn equality() {
    let set = data_set();
    let orders = orders();

    let single = singlethreaded(set, &orders, config());
    let multi = parallel_pipeline(set, &orders, config());

    assert_eq!(single, multi);
}

#[test]
fn strategies_agree() {
    let cfg = Config {
        num_bytes_per_section: 4096,
        num_sections: 3,
        num_iterations: 500,
    };
    let mut data = Vec::with_capacity(cfg.total_bytes());
    let mut rng = ChaCha8Rng::seed_from_u64(99);
    for _ in 0..cfg.total_bytes() {
        data.push(rng.gen());
    }
    let set: &'static [u8] = data.leak();

    let mut requests = Vec::new();
    for i in 0..200usize {
        requests.push(Request {
            start: i * 37,
            section: (i * 7 + i / 3) % cfg.num_sections,
        });
    }

    let sequential = singlethreaded(set, &requests, cfg);
    let batched = singlethreaded_batched(set, &requests, cfg);
    let parallel = parallel_pipeline(set, &requests, cfg);

    assert_eq!(sequential.len(), requests.len());
    assert_eq!(sequential, batched);
    assert_eq!(sequential, parallel);
}

#[test]
fn zero_iterations_gives_zero_checksums() {
    let cfg = Config {
        num_bytes_per_section: 1024,
        num_sections: 2,
        num_iterations: 0,
    };
    let set: &'static [u8] = vec![0xAB; 2048].leak();
    let requests = vec![
        Request { start: 5, section: 0 },
        Request { start: 9, section: 1 },
        Request { start: 3, section: 0 },
    ];

    let expected = vec![0u8, 0, 0];
    assert_eq!(singlethreaded(set, &requests, cfg), expected);
    assert_eq!(singlethreaded_batched(set, &requests, cfg), expected);
    assert_eq!(parallel_pipeline(set, &requests, cfg), expected);
}

#[test]
fn uniform_buffer_one_round() {
    let cfg = Config {
        num_bytes_per_section: 1024,
        num_sections: 1,
        num_iterations: 1,
    };
    let set: &'static [u8] = vec![7u8; 1024].leak();

    // One round sums four reads of the byte 7: checksum 28, whatever the
    // start offset.
    for start in [0usize, 5, 123, 999, 1023, 4096] {
        let requests = vec![Request { start, section: 0 }];
        assert_eq!(singlethreaded(set, &requests, cfg), vec![28u8]);
    }
}

#[test]
fn order_preserved_across_interleaved_sections() {
    // Each section is filled with a byte identifying it, so one round's
    // checksum tells which section a result came from: a misrouted or
    // reordered result would change the output.
    let cfg = Config {
        num_bytes_per_section: 512,
        num_sections: 4,
        num_iterations: 1,
    };
    let mut data = Vec::with_capacity(cfg.total_bytes());
    for s in 0..cfg.num_sections {
        for _ in 0..cfg.num_bytes_per_section {
            data.push((s + 1) as u8);
        }
    }
    let set: &'static [u8] = data.leak();

    let sections = [2usize, 0, 3, 1, 0, 0, 3, 2, 1, 0];
    let mut requests = Vec::new();
    for (i, &section) in sections.iter().enumerate() {
        requests.push(Request { start: i * 11, section });
    }
    let expected: Vec<u8> = sections.iter().map(|&s| (4 * (s + 1)) as u8).collect();

    assert_eq!(singlethreaded(set, &requests, cfg), expected);
    assert_eq!(singlethreaded_batched(set, &requests, cfg), expected);
    assert_eq!(parallel_pipeline(set, &requests, cfg), expected);
}

#[test]
fn skewed_load_keeps_correctness() {
    // Every request targets section 0; sections 1..3 get empty queues. The
    // static assignment must still return all results in submission order.
    let cfg = Config {
        num_bytes_per_section: 1024,
        num_sections: 4,
        num_iterations: 3,
    };
    let mut data = Vec::with_capacity(cfg.total_bytes());
    for i in 0..cfg.total_bytes() {
        data.push((i % 251) as u8);
    }
    let set: &'static [u8] = data.leak();

    let mut requests = Vec::new();
    for i in 0..100usize {
        requests.push(Request { start: i * 13 + 1, section: 0 });
    }

    let queues = build_queues(&requests, cfg);
    assert_eq!(queues.len(), 4);
    assert_eq!(queues[0].len(), 100);
    assert!(queues[1].is_empty());
    assert!(queues[2].is_empty());
    assert!(queues[3].is_empty());

    let sequential = singlethreaded(set, &requests, cfg);
    let parallel = parallel_pipeline(set, &requests, cfg);
    assert_eq!(parallel.len(), 100);
    assert_eq!(parallel, sequential);
}

#[test]
fn queues_keep_submission_order() {
    let cfg = Config {
        num_bytes_per_section: 64,
        num_sections: 3,
        num_iterations: 0,
    };
    let requests = vec![
        Request { start: 10, section: 1 },
        Request { start: 20, section: 0 },
        Request { start: 30, section: 1 },
        Request { start: 40, section: 1 },
        Request { start: 50, section: 0 },
    ];
    let queues = build_queues(&requests, cfg);
    assert_eq!(queues.len(), 3);
    assert_eq!(queues[0], vec![20, 50]);
    assert_eq!(queues[1], vec![10, 30, 40]);
    assert_eq!(queues[2], Vec::<usize>::new());
}
