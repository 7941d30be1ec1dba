//! The stream adaptors: hash picker determinism, window eviction, shingle
//! concatenation, reservoir counting and the stream sampler bound.
use rsf::hash_picker::HashPicker;
use rsf::par_stream_sampler::ParStreamSampler;
use rsf::reservoir::Reservoir;
use rsf::reservoir::ReservoirUpdate;
use rsf::shingle::Shingle;
use rsf::window::Window;
use rsf::window::WindowUpdate;

#[test]
fn picker_is_pure_in_seed_and_index() {
    let a = HashPicker::from_frac_seeded(42, 1, 3);
    let b = HashPicker::from_frac_seeded(42, 1, 3);
    for i in 0..500u64 {
        // Same seed, same index: always the same verdict.
        assert_eq!(a.picks(i), b.picks(i));
        assert_eq!(a.picks(i), a.picks(i));
    }
    // The verdict really depends on the index (not constant).
    let mut yes = 0;
    let mut no = 0;
    for i in 0..500u64 {
        if a.picks(i) {
            yes += 1;
        } else {
            no += 1;
        }
    }
    assert!(yes > 0 && no > 0);
}

#[test]
fn picker_accepts_everything_at_full_fraction() {
    let p = HashPicker::from_frac_seeded(9, 5, 5);
    for i in 0..100u64 {
        assert!(p.picks(i));
    }
}

#[test]
fn window_fills_then_evicts_fifo() {
    let mut w = Window::new(2);
    assert!(matches!(w.push((0, vec![10])), WindowUpdate::Insert));
    assert!(matches!(w.push((1, vec![11])), WindowUpdate::Insert));
    match w.push((2, vec![12])) {
        WindowUpdate::Replace((idx, coords)) => {
            assert_eq!(idx, 0);
            assert_eq!(coords, vec![10]);
        }
        WindowUpdate::Insert => panic!("the full window must evict"),
    }
    match w.push((3, vec![13])) {
        WindowUpdate::Replace((idx, _)) => assert_eq!(idx, 1),
        WindowUpdate::Insert => panic!("the full window must evict"),
    }
}

#[test]
fn shingle_emits_after_priming() {
    let mut sh = Shingle::new(3);
    assert!(sh.push(vec![1]).is_none());
    assert!(sh.push(vec![2]).is_none());
    // The third input completes the first shingle.
    assert_eq!(sh.push(vec![3]).unwrap(), vec![1, 2, 3]);
    assert_eq!(sh.push(vec![4]).unwrap(), vec![2, 3, 4]);
    assert_eq!(sh.push(vec![5]).unwrap(), vec![3, 4, 5]);
}

#[test]
fn reservoir_counts_and_bounds() {
    let mut res = Reservoir::new(3);
    let mut kept = 0;
    for v in 0..50 {
        match res.insert(vec![v]) {
            ReservoirUpdate::Insert => {
                kept += 1;
                assert!(v < 3);
            }
            ReservoirUpdate::Replace(evicted) => {
                assert_eq!(evicted.len(), 1);
            }
            ReservoirUpdate::Skip => {}
        }
    }
    assert_eq!(kept, 3);
    assert_eq!(res.buf.len(), 3);
    assert_eq!(res.i, 50);
}

#[test]
fn sampler_keeps_at_most_n_sorted_keys() {
    let mut s = ParStreamSampler::new(3, 5);
    for round in 0..40 {
        for m in 0..3 {
            s.insert(m, &vec![round, m as i64]);
        }
    }
    assert!(s.sample.len() <= 5);
    let q = s.query();
    assert_eq!(q.len(), s.sample.len());
    for i in 1..s.sample.len() {
        assert!(s.sample[i - 1].1 <= s.sample[i].1);
    }
    for i in 0..s.sample.len() {
        // Every retained key respects the global cutoff.
        assert!(s.sample[i].1 <= s.u);
        assert_eq!(q[i], s.sample[i].0);
    }
    for m in 0..3 {
        assert!(s.us[m] >= s.u);
    }
}
