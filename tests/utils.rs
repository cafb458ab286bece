use versions::utils::NumChecker;

fn all_checks(s: &[u8]) -> bool {
    let mut num_check = NumChecker::new();
    for &c in s {
        if !num_check.check(c) {
            return false;
        }
    }
    true
}

#[test]
fn test_num_checker() {
    assert!(all_checks(b"test123yes456"));
    assert!(!all_checks(b"test0123yes456"));
    assert!(!all_checks(b"test123yes0456"));
}

#[test]
fn num_checker_states() {
    let mut n = NumChecker::new();
    assert_eq!(n, NumChecker::Start);
    assert!(!n.numeric());
    assert!(n.check(b'0'));
    assert_eq!(n, NumChecker::Zero);
    assert!(n.numeric());
    assert!(!n.check(b'7'));
    assert_eq!(n, NumChecker::Zero);
    assert!(n.check(b'.'));
    assert_eq!(n, NumChecker::NotNum);
    assert!(n.check(b'4'));
    assert!(n.check(b'0'));
    assert_eq!(n, NumChecker::OtherNum);
    n.reset();
    assert_eq!(n, NumChecker::Start);
}
