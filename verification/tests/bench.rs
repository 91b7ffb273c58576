use json_proc::parse;
use serde_json::{from_str, Value as SerdeJsonValue};
use std::hint::black_box;
use std::time::{Duration, Instant};

fn bench_custom(s: &str) -> Duration {
    let start = Instant::now();
    let result = parse(s);
    let time = start.elapsed();
    match result {
        Ok(_) => println!("Custom took {:?}", start.elapsed()),
        Err(e) => println!("Error: {}", e.message()),
    }
    time
}

fn bench_serde_json(s: &str) -> Duration {
    let start = Instant::now();
    let result = from_str::<SerdeJsonValue>(s);
    let time = start.elapsed();
    match result {
        Ok(_) => println!("Serde took {:?}", start.elapsed()),
        Err(e) => println!("Error: {e}"),
    }
    time
}

#[test]
fn runtime_test() {
    const TRIALS: u32 = 10;
    const STRING: &str = r#"  {  "key": [null, true, 123, "text but long with \nescapes"], "nested": {"nestedKey": false}}"#;

    let average_custom = {
        let mut total = Duration::from_micros(0);
        for _ in 0..TRIALS {
            *black_box(&mut total) += black_box(bench_custom(black_box(STRING)))
        }
        total / TRIALS
    };

    let average_serde = {
        let mut total = Duration::from_micros(0);
        for _ in 0..TRIALS {
            *black_box(&mut total) += black_box(bench_serde_json(black_box(STRING)))
        }
        total / TRIALS
    };

    println!("Average custom: {:?}", average_custom);
    println!("Average serde: {:?}", average_serde);
    assert!(parse(STRING).is_ok());
}
