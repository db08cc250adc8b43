use img_cache::ImgLimiter;

const A: u64 = 1;
const B: u64 = 2;
const C: u64 = 3;
const D: u64 = 4;
const E: u64 = 5;
const F: u64 = 6;

#[test]
fn previous_frame_is_always_admitted_and_new_ones_are_capped() {
    let mut l = ImgLimiter::new(2);
    assert!(l.limit(A));
    assert!(l.limit(B));
    assert!(!l.view_finish());
    let got: Vec<bool> = [A, B, C, D, E].iter().map(|id| l.limit(*id)).collect();
    assert_eq!(got, vec![true, true, true, true, false]);
    assert!(l.view_finish());
    let got: Vec<bool> = [C, D, E, F].iter().map(|id| l.limit(*id)).collect();
    assert_eq!(got, vec![true, true, true, true]);
}

#[test]
fn one_new_image_per_frame() {
    let mut l = ImgLimiter::new(1);
    assert!(l.limit(A));
    l.view_finish();
    assert!(l.limit(A));
    assert!(l.limit(E));
    assert!(!l.limit(F));
    assert!(l.limit(E));
    assert!(l.view_finish());
    assert!(!l.view_finish());
}

#[test]
fn a_frame_forgets_what_it_did_not_show() {
    let mut l = ImgLimiter::new(1);
    assert!(l.limit(A));
    l.view_finish();
    l.view_finish();
    assert!(l.limit(B));
    assert!(!l.limit(A));
}
