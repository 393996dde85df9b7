use plugin_loader::{keep_loaded, LoadWindow, Released};

#[test]
fn keep_loaded_drops_failures_and_keeps_later_results() {
    assert_eq!(keep_loaded(vec![Some(1), None, Some(3), None]), vec![1, 3]);
}

#[test]
fn keep_loaded_of_nothing() {
    assert_eq!(keep_loaded::<u32>(vec![]), Vec::<u32>::new());
    assert_eq!(keep_loaded::<u32>(vec![None, None]), Vec::<u32>::new());
}

#[test]
fn empty_window_is_pending() {
    let mut w: LoadWindow<u32> = LoadWindow::new(2);
    assert!(w.has_room());
    assert!(matches!(w.release(), Released::Pending));
}

#[test]
fn window_is_bounded_by_capacity() {
    let mut w: LoadWindow<u32> = LoadWindow::new(2);
    assert_eq!(w.submit(), 0);
    assert_eq!(w.submit(), 1);
    assert!(!w.has_room());
    w.complete(0, Some(7));
    assert!(!w.has_room());
    assert!(matches!(w.release(), Released::Loaded(7)));
    assert!(w.has_room());
    assert_eq!(w.submit(), 2);
}

#[test]
fn later_result_waits_for_earlier_one() {
    let mut w: LoadWindow<&str> = LoadWindow::new(3);
    let a = w.submit();
    let b = w.submit();
    w.complete(b, Some("b"));
    assert!(matches!(w.release(), Released::Pending));
    w.complete(a, Some("a"));
    assert!(matches!(w.release(), Released::Loaded("a")));
    assert!(matches!(w.release(), Released::Loaded("b")));
    assert!(matches!(w.release(), Released::Pending));
}

#[test]
fn failed_load_is_skipped_in_place() {
    let mut w: LoadWindow<u32> = LoadWindow::new(3);
    let a = w.submit();
    let b = w.submit();
    let c = w.submit();
    w.complete(c, Some(30));
    w.complete(b, None);
    w.complete(a, Some(10));
    assert!(matches!(w.release(), Released::Loaded(10)));
    assert!(matches!(w.release(), Released::Skipped));
    assert!(matches!(w.release(), Released::Loaded(30)));
}

/// Runs `results` through a window of capacity `cap`, finishing the held
/// loads newest first, and collects what is released.
fn run(cap: usize, results: &[Option<u32>]) -> Vec<u32> {
    let mut w: LoadWindow<u32> = LoadWindow::new(cap);
    let mut out = Vec::new();
    let mut next = 0;
    let mut running: Vec<(usize, Option<u32>)> = Vec::new();
    while next < results.len() || !running.is_empty() {
        while next < results.len() && w.has_room() {
            let t = w.submit();
            running.push((t, results[next]));
            next += 1;
        }
        if let Some((t, r)) = running.pop() {
            w.complete(t, r);
        }
        loop {
            match w.release() {
                Released::Loaded(v) => out.push(v),
                Released::Skipped => {}
                Released::Pending => break,
            }
        }
    }
    out
}

#[test]
fn order_same_for_every_capacity() {
    let results = vec![Some(5), None, Some(1), Some(9), None, Some(2), Some(4)];
    let one = run(1, &results);
    assert_eq!(one, vec![5, 1, 9, 2, 4]);
    assert_eq!(run(2, &results), one);
    assert_eq!(run(3, &results), one);
    assert_eq!(run(8, &results), one);
}

#[test]
fn window_output_matches_keep_loaded() {
    let results = vec![None, Some(3), Some(8), None, Some(6)];
    assert_eq!(run(4, &results), keep_loaded(results.clone()));
}
