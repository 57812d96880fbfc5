use conllx_stream::{LengthFilter, Pipeline, Record, Shuffled, Step};
use rand::SeedableRng;
use rand_xorshift::XorShiftRng;

type Item = Result<Vec<u8>, String>;

fn rec(len: usize) -> Item {
    Ok(vec![0; len])
}

fn lengths(items: &[Item]) -> Vec<usize> {
    items
        .iter()
        .filter_map(|i| i.as_ref().ok().map(|r| r.len()))
        .collect()
}

fn drive(pipeline: &mut Pipeline<Vec<u8>>, input: Vec<Item>) -> Vec<Item> {
    let mut source = input.into_iter();
    let mut out = Vec::new();
    loop {
        match pipeline.feed(source.next()) {
            Step::Pull => {}
            Step::Emit(item) => out.push(item),
            Step::Exhausted => return out,
        }
    }
}

fn drive_filter(filter: &LengthFilter, input: Vec<Item>) -> Vec<Item> {
    let mut source = input.into_iter();
    let mut out = Vec::new();
    loop {
        match filter.feed(source.next()) {
            Step::Pull => {}
            Step::Emit(item) => out.push(item),
            Step::Exhausted => return out,
        }
    }
}

fn seeded() -> XorShiftRng {
    XorShiftRng::seed_from_u64(42)
}

#[test]
fn filter_alone_keeps_short_records_in_order() {
    let filter = LengthFilter::new(5);
    let out = drive_filter(&filter, vec![rec(1), rec(10), rec(2), rec(20), rec(3)]);
    assert_eq!(lengths(&out), vec![1, 2, 3]);
    assert_eq!(out.len(), 3);
}

#[test]
fn filter_keeps_record_of_exactly_max_len() {
    let filter = LengthFilter::new(3);
    assert_eq!(filter.feed(Some(rec(3))), Step::Emit(rec(3)));
    assert_eq!(filter.feed(Some(rec(4))), Step::Pull);
    assert_eq!(filter.feed::<Vec<u8>, String>(None), Step::Exhausted);
    assert_eq!(filter.max_len(), 3);
}

#[test]
fn filter_passes_failures() {
    let filter = LengthFilter::new(0);
    let err: Item = Err("bad".to_string());
    assert_eq!(filter.feed(Some(err.clone())), Step::Emit(err));
}

#[test]
fn pipeline_filter_only_matches_filter() {
    let mut p = Pipeline::new(Some(5), None, seeded());
    let out = drive(&mut p, vec![rec(1), rec(10), rec(2), rec(20), rec(3)]);
    assert_eq!(lengths(&out), vec![1, 2, 3]);
}

#[test]
fn exhaustion_drains_buffer() {
    let mut p = Pipeline::new(Some(5), Some(2), seeded());
    let mut source = vec![rec(1), rec(10), rec(2), rec(20), rec(3)].into_iter();
    let mut out = Vec::new();
    let mut after_end = 0;
    let mut source_done = false;
    loop {
        let pulled = source.next();
        if pulled.is_none() {
            source_done = true;
        }
        match p.feed(pulled) {
            Step::Pull => {}
            Step::Emit(item) => {
                if source_done {
                    after_end += 1;
                }
                out.push(item);
            }
            Step::Exhausted => break,
        }
    }
    let mut got = lengths(&out);
    got.sort();
    assert_eq!(got, vec![1, 2, 3]);
    assert_eq!(after_end, 2);
}

#[test]
fn failure_passes_through_once() {
    let mut p = Pipeline::new(Some(5), Some(2), seeded());
    assert_eq!(p.feed(Some(rec(1))), Step::Pull);
    let err: Item = Err("broken".to_string());
    assert_eq!(p.feed(Some(err.clone())), Step::Emit(err.clone()));
    assert_eq!(p.feed(Some(rec(2))), Step::Pull);
    let out = drive(&mut p, vec![]);
    let mut got = lengths(&out);
    got.sort();
    assert_eq!(got, vec![1, 2]);

    let mut p = Pipeline::new(Some(5), Some(2), seeded());
    let out = drive(&mut p, vec![rec(1), err.clone(), rec(2)]);
    assert_eq!(out.iter().filter(|i| i.is_err()).count(), 1);
    assert_eq!(out[0], err);
}

#[test]
fn shuffle_buffer_stays_bounded() {
    let mut s: Shuffled<Vec<u8>> = Shuffled::new(3, seeded());
    for n in 0..50 {
        let _ = s.feed::<String>(Some(rec(n)));
        assert!(s.len() <= 3);
    }
    while s.feed::<String>(None) != Step::Exhausted {
        assert!(s.len() <= 3);
    }
    assert_eq!(s.len(), 0);
}

#[test]
fn shuffle_conserves_records() {
    let mut p = Pipeline::new(None, Some(4), seeded());
    let input: Vec<Item> = (0..20).map(rec).collect();
    let out = drive(&mut p, input);
    let mut got = lengths(&out);
    assert_ne!(got, (0..20).collect::<Vec<_>>());
    got.sort();
    assert_eq!(got, (0..20).collect::<Vec<_>>());
}

#[test]
fn same_seed_same_output() {
    let input: Vec<Item> = (0..30).map(rec).collect();
    let mut a = Pipeline::new(None, Some(5), seeded());
    let mut b = Pipeline::new(None, Some(5), seeded());
    assert_eq!(drive(&mut a, input.clone()), drive(&mut b, input));
}

#[test]
fn zero_buffer_passes_through() {
    let mut p = Pipeline::new(None, Some(0), seeded());
    let input: Vec<Item> = vec![rec(3), rec(1), rec(2)];
    assert_eq!(drive(&mut p, input.clone()), input);
}

#[test]
fn no_stages_passes_through() {
    let mut p = Pipeline::new(None, None, seeded());
    let input: Vec<Item> = vec![rec(3), Err("x".to_string()), rec(2)];
    assert_eq!(drive(&mut p, input.clone()), input);
    assert_eq!(p.max_len(), None);
    assert_eq!(p.shuffle_buffer_size(), None);
}

#[test]
fn first_output_after_buffer_fills() {
    let mut s: Shuffled<Vec<u8>> = Shuffled::new(2, seeded());
    assert_eq!(s.buffer_size(), 2);
    assert_eq!(s.feed::<String>(Some(rec(1))), Step::Pull);
    assert_eq!(s.feed::<String>(Some(rec(2))), Step::Pull);
    assert_eq!(s.len(), 2);
    match s.feed::<String>(Some(rec(3))) {
        Step::Emit(Ok(r)) => assert!((1..=3).contains(&r.len())),
        other => panic!("unexpected {:?}", other),
    }
    assert_eq!(s.len(), 2);
}

#[test]
fn record_length_of_vec() {
    assert_eq!(vec![1u8, 2, 3].length(), 3);
    assert_eq!(Vec::<u8>::new().length(), 0);
}

#[test]
fn measured_record_uses_reported_length() {
    let m = conllx_stream::Measured { length: 7, record: "seven" };
    assert_eq!(m.length(), 7);
    let filter = LengthFilter::new(6);
    assert_eq!(filter.feed::<_, String>(Some(Ok(m))), Step::Pull);
}
