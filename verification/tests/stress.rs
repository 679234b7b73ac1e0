use rand::rngs::StdRng;
use rand::seq::SliceRandom;
use rand::SeedableRng;

use shredder::collector::allocation::Payload;
use shredder::collector::{Collector, InternalGcRef};

const NODE_COUNT: usize = 1 << 18;
const EDGE_COUNT: usize = 1 << 18;
const SHRINK_DIV: usize = 1 << 13;

#[test]
fn stress_test() {
    let mut collector = Collector::new();
    println!("Creating nodes...");
    let mut nodes: Vec<InternalGcRef> = Vec::new();

    for i in 0..=NODE_COUNT {
        nodes.push(collector.track_with_drop(Payload::new(i as u64)));
    }

    println!("Adding edges...");
    let mut rng = StdRng::seed_from_u64(0xCAFE);
    for _ in 0..=EDGE_COUNT {
        let a = nodes.choose(&mut rng).unwrap();
        let b = nodes.choose(&mut rng).unwrap();

        let edge = collector.clone_handle(b);
        let warrant = collector.get_data_warrant(a);
        let mut data = collector.replace_payload(&warrant, Payload::new(0));
        data.push_handle(edge);
        collector.replace_payload(&warrant, data);
        collector.release_data_warrant(warrant);
    }

    println!("Doing the shrink...");
    for i in 0..NODE_COUNT {
        if i % SHRINK_DIV == 0 {
            while nodes.len() > NODE_COUNT - i {
                let mut dropped = nodes.pop().unwrap();
                collector.drop_handle(&mut dropped);
            }
            collector.collect();
            println!("Now have {} datas", collector.tracked_data_count());
            assert!(collector.tracked_data_count() >= nodes.len());
        }
    }
}
