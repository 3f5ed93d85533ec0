use fuzzy_regex::osa::{breakdown_dp, distance_dp};

fn chars(s: &str) -> Vec<char> {
    s.chars().collect()
}

#[test]
fn osa_distance_examples() {
    assert_eq!(distance_dp(&chars("kitten"), &chars("sitting")), 3);
    assert_eq!(distance_dp(&chars("ab"), &chars("ba")), 1);
    assert_eq!(distance_dp(&chars(""), &chars("abc")), 3);
    assert_eq!(distance_dp(&chars("abc"), &chars("")), 3);
    assert_eq!(distance_dp(&chars(""), &chars("")), 0);
    // The restricted form edits no substring twice: "ca" to "abc" takes three.
    assert_eq!(distance_dp(&chars("ca"), &chars("abc")), 3);
}

#[test]
fn osa_breakdown_examples() {
    assert_eq!(breakdown_dp(&chars("kitten"), &chars("sitting")), (1, 0, 2, 0));
    assert_eq!(breakdown_dp(&chars("ab"), &chars("ba")), (0, 0, 0, 1));
    assert_eq!(breakdown_dp(&chars(""), &chars("abc")), (3, 0, 0, 0));
    assert_eq!(breakdown_dp(&chars("abc"), &chars("")), (0, 3, 0, 0));
    assert_eq!(breakdown_dp(&chars("héllo"), &chars("hello")), (0, 0, 1, 0));
}

#[test]
fn osa_breakdown_sums_to_distance() {
    let words = ["", "a", "ab", "ba", "abc", "acb", "cab", "abcd", "badc", "xyz", "aabb"];
    for p in words {
        for t in words {
            let (i, d, s, w) = breakdown_dp(&chars(p), &chars(t));
            let dist = distance_dp(&chars(p), &chars(t));
            assert_eq!(i as u32 + d as u32 + s as u32 + w as u32, dist as u32, "{p:?} {t:?}");
            assert_eq!(i as i32 - d as i32, t.chars().count() as i32 - p.chars().count() as i32);
        }
    }
}
