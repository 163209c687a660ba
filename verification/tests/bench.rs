use cmdmat::Benchmarker;
use cmdmat::stopwatch;

#[test]
fn zero_length() {
    let mut ben = Benchmarker::new(0);
    ben.start();
    assert![ben.stop().is_some()];
    ben.start();
    assert![ben.stop().is_some()];
}

#[test]
fn basic_length() {
    let mut ben = Benchmarker::new(1);
    ben.start();
    assert![ben.stop().is_some()];
    ben.start();
    assert![ben.stop().is_some()];
}

#[test]
fn basic_length_run() {
    let mut ben = Benchmarker::new(1);
    let ((), duration) = ben.run(|| {});
    assert![duration.is_some()];
}

#[test]
fn five_length() {
    let mut ben = Benchmarker::new(5);
    ben.start();
    assert![ben.stop().is_none()];
    ben.start();
    assert![ben.stop().is_none()];
    ben.start();
    assert![ben.stop().is_none()];
    ben.start();
    assert![ben.stop().is_none()];
    ben.start();
    assert![ben.stop().is_some()];
}

#[test]
fn report_is_the_mean_of_the_window() {
    fn spin(ms: u64) {
        let t = std::time::Instant::now();
        while t.elapsed() < std::time::Duration::from_millis(ms) {}
    }

    let mut ben = Benchmarker::new(4);
    for _ in 0..3 {
        ben.start();
        spin(30);
        assert![ben.stop().is_none()];
    }
    ben.start();
    spin(30);
    let report = ben.stop().unwrap();
    // the mean of four samples of at least 30 ms each is at least 30 ms...
    assert![report >= std::time::Duration::from_millis(30)];
    // ...and well below their sum, which exceeds 120 ms
    assert![report < std::time::Duration::from_millis(120)];
}

#[test]
fn run_passes_result_through() {
    let mut ben = Benchmarker::new(2);
    let (value, first) = ben.run(|| 41 + 1);
    assert_eq![42, value];
    assert![first.is_none()];
    let (_, second) = ben.run(|| ());
    assert![second.is_some()];
}

#[test]
fn stopwatch_reports_once() {
    let mut ticks = 0u32;
    let mut reported = false;
    stopwatch(
        || {
            ticks += 1;
        },
        |_t: std::time::Duration| {
            reported = true;
        },
    );
    assert_eq![1, ticks];
    assert![reported];
}
