use ps_algorithm::string::{z, Kmp, KmpMatcher};

fn collect(mut search: Kmp<'_, u8>) -> Vec<usize> {
    let mut out = Vec::new();
    while let Some(matched) = search.next() {
        out.push(matched);
    }
    out
}

#[test]
fn test_z() {
    assert_eq!(
        vec![0, 0, 3, 0, 1, 3, 0, 1, 5, 0, 3, 0, 1],
        z("ababaabaababa".as_bytes()),
    );
}

#[test]
fn test_pi() {
    assert_eq!(
        &vec![0, 1, 0, 1, 2, 3, 0, 1, 0, 0, 1, 0, 1],
        KmpMatcher::new("aabaabbabbaba".as_bytes()).pi()
    )
}

#[test]
fn test_kmp() {
    let matcher = KmpMatcher::new("aba".as_bytes());
    let result: Vec<usize> = collect(matcher.find("aabaabababa".as_bytes()));
    assert_eq!(vec![1, 1, 2, 3, 1, 2, 3, 2, 3, 2, 3], result);
}

#[test]
fn z_of_short_inputs() {
    assert_eq!(vec![0], z("".as_bytes()));
    assert_eq!(vec![0], z("a".as_bytes()));
    assert_eq!(vec![0, 1], z("aa".as_bytes()));
    assert_eq!(vec![0, 0], z("ab".as_bytes()));
}

#[test]
fn z_goes_on_where_the_box_ends() {
    // At position 4 the box ends at 5 and the match goes on behind it.
    assert_eq!(vec![0, 1, 0, 2, 2, 1], z("aabaaa".as_bytes()));
    assert_eq!(vec![0, 4, 3, 2, 1], z("aaaaa".as_bytes()));
}

#[test]
fn z_is_the_longest_common_prefix_everywhere() {
    let texts = ["abacabadabacaba", "aabaabaabaab", "abcabcabcabd", "zzzyzzzzyzz"];
    for text in texts {
        let s = text.as_bytes();
        let found = z(s);
        assert_eq!(s.len(), found.len());
        assert_eq!(0, found[0]);
        for i in 1..s.len() {
            let mut k = 0;
            while i + k < s.len() && s[k] == s[i + k] {
                k += 1;
            }
            assert_eq!(k, found[i]);
        }
    }
}

#[test]
fn kmp_table_of_one_entry() {
    assert_eq!(&vec![0], KmpMatcher::new("x".as_bytes()).pi());
    assert_eq!(&vec![0, 1, 2, 3], KmpMatcher::new("aaaa".as_bytes()).pi());
}

#[test]
fn kmp_reports_every_match() {
    let matcher = KmpMatcher::new("aa".as_bytes());
    assert_eq!(vec![1, 2, 2, 2, 0, 1], collect(matcher.find("aaaaba".as_bytes())));
    assert_eq!(Vec::<usize>::new(), collect(matcher.find("".as_bytes())));
    let mut search = matcher.find("a".as_bytes());
    assert_eq!(Some(1), search.next());
    assert_eq!(None, search.next());
    assert_eq!(None, search.next());
}

#[test]
fn kmp_states_are_the_longest_fitting_prefixes() {
    let pattern = "abab".as_bytes();
    let text = "abaababababbab".as_bytes();
    let matcher = KmpMatcher::new(pattern);
    let states = collect(matcher.find(text));
    assert_eq!(text.len(), states.len());
    for m in 1..=text.len() {
        let mut best = 0;
        for k in 0..=pattern.len().min(m) {
            if pattern[..k] == text[m - k..m] {
                best = k;
            }
        }
        assert_eq!(best, states[m - 1]);
    }
}
