use mini_chain::mini_chain::edit::{chains_edit_totals, levenshtein_distance_vec};
use mini_chain::text::{push_bytes_text, push_decimal, to_hex_lower};

fn words(s: &[&str]) -> Vec<String> {
    s.iter().map(|w| w.to_string()).collect()
}

#[test]
fn decimal_and_hex_text() {
    let mut s = String::new();
    push_decimal(&mut s, 0);
    assert_eq!(s, "0");
    push_decimal(&mut s, 1234567890123);
    assert_eq!(s, "01234567890123");
    let mut m = String::new();
    push_decimal(&mut m, u128::MAX);
    assert_eq!(m, u128::MAX.to_string());
    assert_eq!(to_hex_lower(&[0, 255, 16, 171]), "00ff10ab");
    assert_eq!(to_hex_lower(&[]), "");
}

#[test]
fn byte_list_text() {
    let mut s = String::new();
    push_bytes_text(&mut s, &vec![1, 22, 255]);
    assert_eq!(s, "[1, 22, 255]");
    let mut e = String::from("x");
    push_bytes_text(&mut e, &vec![]);
    assert_eq!(e, "x[]");
}

#[test]
fn levenshtein_on_hash_lists() {
    assert_eq!(levenshtein_distance_vec(&words(&["a", "b", "c"]), &words(&["a", "c"])), 1);
    assert_eq!(levenshtein_distance_vec(&words(&[]), &words(&["x", "y"])), 2);
    assert_eq!(levenshtein_distance_vec(&words(&["x", "y"]), &words(&[])), 2);
    assert_eq!(levenshtein_distance_vec(&words(&["a", "b"]), &words(&["b", "a"])), 2);
    assert_eq!(levenshtein_distance_vec(&words(&["a", "b"]), &words(&["a", "b"])), 0);
    assert_eq!(
        levenshtein_distance_vec(
            &words(&["k", "i", "t", "t", "e", "n"]),
            &words(&["s", "i", "t", "t", "i", "n", "g"])
        ),
        3
    );
    let a = words(&["p", "q", "r", "s"]);
    let b = words(&["q", "x", "s"]);
    assert_eq!(levenshtein_distance_vec(&a, &b), levenshtein_distance_vec(&b, &a));
}

#[test]
fn edit_totals_over_pairs() {
    let chains = vec![words(&["a", "b"]), words(&["a", "c"])];
    assert_eq!(chains_edit_totals(&chains), (2, 8));
    let three = vec![words(&["a"]), words(&["a"]), words(&["b", "c"])];
    // distances: (0,1)=0, (0,2)=2, (1,2)=2, each counted both ways
    assert_eq!(chains_edit_totals(&three), (8, 16));
    assert_eq!(chains_edit_totals(&vec![]), (0, 0));
    assert_eq!(chains_edit_totals(&vec![words(&["a"])]), (0, 0));
}

#[test]
fn levenshtein_triangle_on_samples() {
    let a = words(&["a", "b", "c", "d"]);
    let b = words(&["b", "x", "d"]);
    let c = words(&["x", "y"]);
    let ab = levenshtein_distance_vec(&a, &b);
    let bc = levenshtein_distance_vec(&b, &c);
    let ac = levenshtein_distance_vec(&a, &c);
    assert_eq!((ab, bc, ac), (2, 2, 4));
    assert!(ac <= ab + bc);
}
