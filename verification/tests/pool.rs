use kvs::{RayonThreadPool, ThreadPool};

#[test]
fn rayon_pool_runs_every_job() {
    let pool = RayonThreadPool::new(2).unwrap();
    let (tx, rx) = std::sync::mpsc::channel();
    for i in 0..10 {
        let tx = tx.clone();
        pool.spawn(move || {
            tx.send(i).unwrap();
        });
    }
    drop(tx);
    let mut got: Vec<i32> = rx.iter().collect();
    got.sort();
    assert_eq!(got, (0..10).collect::<Vec<i32>>());
}
