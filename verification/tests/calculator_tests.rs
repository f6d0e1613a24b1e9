//! Token classification for the expression front end.

use messenger_core::calculator::is_operator;
use messenger_core::calculator::priority;

#[test]
fn operators_are_recognised() {
    assert!(is_operator("+"));
    assert!(is_operator("-"));
    assert!(is_operator("*"));
    assert!(is_operator("/"));
    assert!(!is_operator("%"));
    assert!(!is_operator("++"));
    assert!(!is_operator(""));
    assert!(!is_operator("mem"));
}

#[test]
fn priorities_rank_multiplicative_above_additive() {
    assert_eq!(priority("+"), 1);
    assert_eq!(priority("-"), 1);
    assert_eq!(priority("*"), 2);
    assert_eq!(priority("/"), 2);
    assert_eq!(priority("("), 0);
    assert_eq!(priority("42"), 0);
    assert_eq!(priority(""), 0);
}
