use pagewatch::text::{
    contains_substring, fresh_fragments, join_with_newlines, matching_fragments, split_into_lines,
    str_eq, u64_to_dec, vec_contains_str,
};

fn strings(items: &[&str]) -> Vec<String> {
    items.iter().map(|s| s.to_string()).collect()
}

#[test]
fn test_contains_substring() {
    assert!(contains_substring("meow mathew", "meow"));
    assert!(contains_substring("meow", "meow"));
    assert!(contains_substring("anything", ""));
    assert!(contains_substring("", ""));
    assert!(!contains_substring("", "meow"));
    // Case-sensitive, literal matching.
    assert!(!contains_substring("Meow", "meow"));
    assert!(!contains_substring("me.w", "meow"));
}

#[test]
fn test_str_eq() {
    assert!(str_eq("meow", "meow"));
    assert!(!str_eq("meow", "meo"));
    assert!(!str_eq("meow", "Meow"));
    assert!(str_eq("", ""));
}

#[test]
fn test_split_into_lines() {
    assert_eq!(split_into_lines(""), Vec::<String>::new());
    assert_eq!(split_into_lines("a\nb\n"), strings(&["a", "b"]));
    assert_eq!(split_into_lines("a\nb"), strings(&["a", "b"]));
    assert_eq!(split_into_lines("\n"), strings(&[""]));
    assert_eq!(split_into_lines("a\n\nb\n"), strings(&["a", "", "b"]));
}

#[test]
fn test_join_with_newlines() {
    assert_eq!(join_with_newlines(&strings(&[])), "");
    assert_eq!(join_with_newlines(&strings(&["a", "b"])), "a\nb\n");
    assert_eq!(join_with_newlines(&strings(&[""])), "\n");
}

#[test]
fn test_split_join_round_trip() {
    let frags = strings(&["meow", "cactus", "meow mathew"]);
    assert_eq!(split_into_lines(&join_with_newlines(&frags)), frags);
}

#[test]
fn test_matching_fragments_dedups_in_order() {
    let frags = strings(&["meow", "cactus", "meow mathew", "meow", "meow mathew"]);
    assert_eq!(matching_fragments(&frags, "meow"), strings(&["meow", "meow mathew"]));
    assert_eq!(matching_fragments(&frags, "nothing"), Vec::<String>::new());
    // An empty pattern matches every fragment.
    assert_eq!(
        matching_fragments(&strings(&["a", "b", "a"]), ""),
        strings(&["a", "b"])
    );
}

#[test]
fn test_fresh_fragments() {
    let cur = strings(&["a", "b", "c"]);
    assert_eq!(fresh_fragments(&cur, &strings(&["b"])), strings(&["a", "c"]));
    assert_eq!(fresh_fragments(&cur, &strings(&["a", "b", "c"])), Vec::<String>::new());
    assert_eq!(fresh_fragments(&cur, &strings(&[])), cur);
}

#[test]
fn test_vec_contains_str() {
    let v = strings(&["a", "bb"]);
    assert!(vec_contains_str(&v, "a"));
    assert!(vec_contains_str(&v, "bb"));
    assert!(!vec_contains_str(&v, "b"));
    assert!(!vec_contains_str(&v, ""));
}

#[test]
fn test_u64_to_dec() {
    assert_eq!(u64_to_dec(0), "0");
    assert_eq!(u64_to_dec(7), "7");
    assert_eq!(u64_to_dec(42), "42");
    assert_eq!(u64_to_dec(1000), "1000");
    assert_eq!(u64_to_dec(18446744073709551615), "18446744073709551615");
}
