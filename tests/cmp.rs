use std::cmp::Ordering;

use versions::cmp::{char_order, compare_alpha, compare_versions};
use versions::Version;

struct PrioSetter {
    prio: u8,
    char_order: [u8; 256],
}

impl PrioSetter {
    fn new() -> PrioSetter {
        PrioSetter {
            prio: 0,
            char_order: [255u8; 256],
        }
    }

    fn set(&mut self, character: u8) {
        self.char_order[usize::from(character)] = self.prio;
        self.prio += 1;
    }

    fn build(self) -> [u8; 256] {
        self.char_order
    }
}

fn version(text: &str) -> Version {
    Version::new_unchecked(text.to_string())
}

#[test]
fn test_char_order() {
    let mut prios = PrioSetter::new();
    prios.set(b'~');
    for c in b'a'..=b'z' {
        prios.set(c);
    }
    prios.set(b'+');
    prios.set(b'-');
    for c in b'0'..=b'9' {
        prios.set(c);
    }
    prios.set(b'.');
    let prios = prios.build();

    println!("{:?}", &prios as &[u8]);

    assert!(prios.len() == 256);
    assert!(prios.iter().enumerate().all(|(i, &p)| p == char_order(i as u8)));
}

#[test]
fn test_compare_alpha() {
    // Equal
    assert_eq!(compare_alpha(b"test", b"test"), Ordering::Equal);
    assert_eq!(compare_alpha(b"", b""), Ordering::Equal);
    // Ordering
    assert_eq!(compare_alpha(b"t1", b"t2"), Ordering::Less);
    assert_eq!(compare_alpha(b"t2", b"t1"), Ordering::Greater);
    assert_eq!(compare_alpha(b"t133", b"t2"), Ordering::Less);
    assert_eq!(compare_alpha(b"t2", b"t133"), Ordering::Greater);
    assert_eq!(compare_alpha(b"ta", b"tb"), Ordering::Less);
    assert_eq!(compare_alpha(b"tb", b"ta"), Ordering::Greater);
    assert_eq!(compare_alpha(b"tz", b"test"), Ordering::Greater);
    assert_eq!(compare_alpha(b"test", b"tz"), Ordering::Less);
    // Letters come before numbers
    assert_eq!(compare_alpha(b"test", b"te5t"), Ordering::Less);
    assert_eq!(compare_alpha(b"te5t", b"test"), Ordering::Greater);
    // End comes before all (but tilde)
    assert_eq!(compare_alpha(b"test", b"te"), Ordering::Greater);
    assert_eq!(compare_alpha(b"te", b"test"), Ordering::Less);
    assert_eq!(compare_alpha(b"te-", b"te"), Ordering::Greater);
    assert_eq!(compare_alpha(b"te", b"te-"), Ordering::Less);
    // Tilde comes before end
    assert_eq!(compare_alpha(b"te~", b"te"), Ordering::Less);
    assert_eq!(compare_alpha(b"te", b"te~"), Ordering::Greater);
}

#[test]
fn test_compare_versions() {
    assert!(version("") == version(""));
    assert!(version("1.2") == version("1.2"));
    assert!(version("1.2") < version("1.2.0"));
    assert!(version("1.3.1") > version("1.1.3"));
    assert!(version("1.1.3") < version("1.3.1"));
    assert!(version("1.1~rc1") < version("1.1"));
    assert!(version("1.1-fix1") > version("1.1"));
}

#[test]
fn alpha_priority_chain() {
    assert_eq!(compare_alpha(b"~~", b"~~a"), Ordering::Less);
    assert_eq!(compare_alpha(b"~~a", b""), Ordering::Less);
    assert_eq!(compare_alpha(b"", b"a"), Ordering::Less);
    assert_eq!(compare_versions("~~", "~~a"), Ordering::Less);
    assert_eq!(compare_versions("~~a", ""), Ordering::Less);
    assert_eq!(compare_versions("", "a"), Ordering::Less);
    assert_eq!(compare_versions("~~", "a"), Ordering::Less);
}

#[test]
fn numeric_runs_compare_by_value() {
    assert_eq!(compare_versions("t2", "t133"), Ordering::Less);
    assert_eq!(compare_versions("t133", "t2"), Ordering::Greater);
    assert_eq!(compare_versions("1.02", "1.2"), Ordering::Equal);
    assert_eq!(compare_versions("1.10", "1.9"), Ordering::Greater);
}

#[test]
fn numeric_overflow_reads_as_zero() {
    assert_eq!(compare_versions("1.4294967296", "1.0"), Ordering::Equal);
    assert_eq!(compare_versions("1.4294967295", "1.0"), Ordering::Greater);
    assert_eq!(compare_versions("99999999999", "1"), Ordering::Less);
}

#[test]
fn tilde_sorts_before_end() {
    assert_eq!(compare_versions("1.0~rc1", "1.0"), Ordering::Less);
    assert_eq!(compare_versions("1.0~rc1", "1.0~rc2"), Ordering::Less);
    assert_eq!(compare_versions("1.0~~", "1.0~"), Ordering::Less);
    assert_eq!(compare_versions("1.0+b1", "1.0"), Ordering::Greater);
}

#[test]
fn version_order_is_consistent() {
    let vs = ["", "~", "1", "1.0", "1.0~rc1", "1.0-1", "1.0+b", "1.00", "a", "2:1.0", "1.2.3"];
    for a in vs.iter() {
        for b in vs.iter() {
            let ab = version(a).cmp(&version(b));
            let ba = version(b).cmp(&version(a));
            assert_eq!(ab, ba.reverse());
            assert_eq!(version(a) == version(b), ab == Ordering::Equal);
            for c in vs.iter() {
                let bc = version(b).cmp(&version(c));
                let ac = version(a).cmp(&version(c));
                if ab == Ordering::Less && bc == Ordering::Less {
                    assert_eq!(ac, Ordering::Less);
                }
                if ab == Ordering::Equal && bc == Ordering::Equal {
                    assert_eq!(ac, Ordering::Equal);
                }
            }
        }
    }
}

#[test]
fn char_order_ranks() {
    assert_eq!(char_order(b'~'), 0);
    assert_eq!(char_order(b'a'), 1);
    assert_eq!(char_order(b'z'), 26);
    assert_eq!(char_order(b'+'), 27);
    assert_eq!(char_order(b'-'), 28);
    assert_eq!(char_order(b'0'), 29);
    assert_eq!(char_order(b'9'), 38);
    assert_eq!(char_order(b'.'), 39);
    assert_eq!(char_order(b'A'), 255);
    assert_eq!(char_order(b':'), 255);
}
