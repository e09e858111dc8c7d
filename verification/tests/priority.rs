//! Tests for the priority model: saturating addition with `Critical` as an
//! absorbing top element, and the scheduling order.

use gigs::meta::JobPriority;
use gigs::meta::Priority;

fn or_min(num: u32) -> u32 {
    if num == 0 {
        1
    } else {
        num
    }
}

fn non_criticals(weights: impl IntoIterator<Item = u32>) -> Vec<Priority> {
    weights
        .into_iter()
        .map(|num| Priority::NonCritical(or_min(num)))
        .collect()
}

fn sum_priorities(priorities: impl IntoIterator<Item = Priority>) -> Option<Priority> {
    priorities.into_iter().reduce(|a, b| a.combine(b))
}

#[test]
fn priority_sum() {
    let priorities = non_criticals([1, 2, 3, 4, 5]);
    let sum = sum_priorities(priorities).unwrap();
    assert_eq!(sum, Priority::NonCritical(or_min(15)));
}

#[test]
fn priority_sum_ones() {
    const COUNT: u32 = 20;
    let priorities = non_criticals(std::iter::repeat(1).take(COUNT as usize));
    let sum = sum_priorities(priorities).unwrap();
    assert_eq!(sum, Priority::NonCritical(or_min(COUNT)));
}

#[test]
fn priority_sum_critical_left() {
    const COUNT: u32 = 20;
    let priorities = non_criticals(std::iter::repeat(1).take(COUNT as usize));
    let sum =
        sum_priorities(std::iter::once(Priority::Critical).chain(priorities)).unwrap();
    assert_eq!(sum, Priority::Critical);
}

#[test]
fn priority_sum_critical_right() {
    const COUNT: u32 = 20;
    let priorities = non_criticals(std::iter::repeat(1).take(COUNT as usize));
    let sum =
        sum_priorities(priorities.into_iter().chain(std::iter::once(Priority::Critical))).unwrap();
    assert_eq!(sum, Priority::Critical);
}

#[test]
fn priority_combine_commutes_and_associates() {
    let samples = [
        Priority::Critical,
        Priority::NonCritical(1),
        Priority::NonCritical(7),
        Priority::NonCritical(u32::MAX),
    ];
    for &a in &samples {
        for &b in &samples {
            assert_eq!(a.combine(b), b.combine(a));
            for &c in &samples {
                assert_eq!(a.combine(b).combine(c), a.combine(b.combine(c)));
            }
        }
    }
}

#[test]
fn priority_sum_saturates() {
    let sum = Priority::NonCritical(u32::MAX).combine(Priority::NonCritical(5));
    assert_eq!(sum, Priority::NonCritical(u32::MAX));
    let near = Priority::NonCritical(u32::MAX - 1).combine(Priority::NonCritical(1));
    assert_eq!(near, Priority::NonCritical(u32::MAX));
    let over = Priority::NonCritical(u32::MAX - 1).combine(Priority::NonCritical(2));
    assert_eq!(over, Priority::NonCritical(u32::MAX));
}

#[test]
fn priority_critical_in_the_middle_absorbs() {
    let sum = sum_priorities([
        Priority::NonCritical(3),
        Priority::Critical,
        Priority::NonCritical(9),
    ])
    .unwrap();
    assert_eq!(sum, Priority::Critical);
}

#[test]
fn priority_ordering() {
    assert!(Priority::NonCritical(5).le(Priority::Critical));
    assert!(!Priority::Critical.le(Priority::NonCritical(u32::MAX)));
    assert!(Priority::NonCritical(3).le(Priority::NonCritical(4)));
    assert!(!Priority::NonCritical(4).le(Priority::NonCritical(3)));
    assert!(Priority::Critical.le(Priority::Critical));
}

#[test]
fn job_priority_constructors() {
    assert!(JobPriority::critical().is_critical());
    assert!(!JobPriority::non_critical(3).is_critical());
    assert_eq!(JobPriority::non_critical(3).0, Priority::NonCritical(3));
    assert_eq!(JobPriority::default().0, Priority::NonCritical(1));
    assert_eq!(Priority::default(), Priority::NonCritical(1));
}
