//! The trial-count formula and the tenure decay rule.

use nqueen::search::decay_tenure;
use nqueen::trials::trials;

#[test]
fn trials_tiny_boards() {
    assert_eq!(trials(1), 0);
    assert_eq!(trials(2), 3);
    assert_eq!(trials(3), 4);
    assert_eq!(trials(5), 6);
    assert_eq!(trials(7), 8);
    assert_eq!(trials(9), 9);
}

#[test]
fn trials_powers_of_ten() {
    assert_eq!(trials(10), 10);
    assert_eq!(trials(100), 20);
    assert_eq!(trials(1000), 30);
    assert_eq!(trials(1_000_000), 60);
    assert_eq!(trials(10_000_000_000_000_000_000), 190);
}

#[test]
fn trials_step_boundaries() {
    // 10^3.5 = 3162.27..., so the step from 34 to 35 falls between 3162 and 3163
    assert_eq!(trials(3162), 34);
    assert_eq!(trials(3163), 35);
    // 10^1.9 = 79.43...
    assert_eq!(trials(79), 18);
    assert_eq!(trials(80), 19);
}

#[test]
fn trials_largest_input() {
    assert_eq!(trials(usize::MAX), 192);
}

#[test]
fn tenure_decay_reaches_its_floor() {
    // repeated decay from the starting tenure 10: monotone down to the fixed point 2
    assert_eq!(decay_tenure(10), 6);
    assert_eq!(decay_tenure(6), 4);
    assert_eq!(decay_tenure(4), 3);
    assert_eq!(decay_tenure(3), 2);
    assert_eq!(decay_tenure(2), 2);
    // tenure 1 is also a fixed point: decay never drops below 1
    assert_eq!(decay_tenure(1), 1);
}
