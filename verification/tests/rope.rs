use ropekit::rope::{FString, Rope};

fn leaf(s: &str) -> Rope {
    Rope::new(String::from(s))
}

fn sample() -> Rope {
    leaf("peeeee").concat(leaf(" my name"))
}

#[test]
fn concat_renders_both_in_order() {
    let r = sample();
    assert_eq!(r.render(), "peeeee my name");
    assert_eq!(r.size(), 14);
}

#[test]
fn split_inside_first_leaf() {
    let (left, right) = sample().split(3);
    assert_eq!(left.render(), "pee");
    let right = right.expect("a cut before the end leaves a right part");
    assert_eq!(right.render(), "eee my name");
    assert_eq!(left.size(), 3);
    assert_eq!(right.size(), 11);
}

#[test]
fn split_leaf_far_past_end() {
    let (left, right) = leaf("peeeee").split(30);
    assert_eq!(left.render(), "peeeee");
    assert!(right.is_none());
}

#[test]
fn split_leaf_at_exact_length() {
    let (left, right) = leaf("peeeee").split(6);
    assert_eq!(left.render(), "peeeee");
    assert!(right.is_none());
}

#[test]
fn split_leaf_one_before_end() {
    let (left, right) = leaf("peeeee").split(5);
    assert_eq!(left.render(), "peeee");
    assert_eq!(right.expect("one character is left").render(), "e");
}

#[test]
fn insert_in_the_middle() {
    let r = sample().insert(3, leaf("DOOBA"));
    assert_eq!(r.render(), "peeDOOBAeee my name");
    assert_eq!(r.size(), 19);
}

#[test]
fn delete_inclusive_range() {
    let r = sample().insert(3, leaf("DOOBA"));
    let r = r.delete(3, 7);
    assert_eq!(r.render(), "peeeee my name");
    assert_eq!(r.size(), 14);
}

#[test]
fn delete_past_end_truncates() {
    let r = sample().delete(6, 1000);
    assert_eq!(r.render(), "peeeee");
    let r = sample().delete(20, 25);
    assert_eq!(r.render(), "peeeee my name");
    let r = sample().delete(0, 13);
    assert_eq!(r.render(), "");
    let r = sample().delete(13, 13);
    assert_eq!(r.render(), "peeeee my nam");
}

#[test]
fn delete_single_character() {
    let r = sample().delete(0, 0);
    assert_eq!(r.render(), "eeeee my name");
    let r = sample().delete(6, 6);
    assert_eq!(r.render(), "peeeeemy name");
}

#[test]
fn nth_follows_the_text() {
    let r = sample();
    let text: Vec<char> = "peeeee my name".chars().collect();
    for (i, c) in text.iter().enumerate() {
        assert_eq!(r.nth(i), Some(*c));
    }
    assert_eq!(r.nth(14), None);
    assert_eq!(r.nth(usize::MAX), None);
    assert_eq!(leaf("").nth(0), None);
}

#[test]
fn size_is_length_of_render() {
    let r = sample().insert(2, leaf("xyz")).delete(1, 1);
    assert_eq!(r.size(), r.render().chars().count());
}

#[test]
fn split_at_every_offset_keeps_the_text() {
    let text = "peeeee my name and more";
    for i in 0..=text.len() + 2 {
        let r = leaf("peeeee").concat(leaf(" my name")).concat(leaf(" and more"));
        let (left, right) = r.split(i);
        let cut = i.min(text.len());
        assert_eq!(left.render(), &text[..cut]);
        assert_eq!(left.size(), cut);
        match right {
            Some(x) => {
                assert!(i < text.len());
                assert_eq!(x.render(), &text[cut..]);
            }
            None => assert!(i >= text.len()),
        }
    }
}

#[test]
fn split_at_node_boundary() {
    let (left, right) = sample().split(6);
    assert_eq!(left.render(), "peeeee");
    assert_eq!(right.expect("the right child").render(), " my name");
}

#[test]
fn split_at_zero_gives_empty_left() {
    let (left, right) = sample().split(0);
    assert_eq!(left.render(), "");
    assert_eq!(left.size(), 0);
    assert_eq!(right.expect("the whole text").render(), "peeeee my name");
}

#[test]
fn split_deep_tree_twice() {
    let r = leaf("ab").concat(leaf("cd")).concat(leaf("ef").concat(leaf("gh")));
    let (left, right) = r.split(5);
    assert_eq!(left.render(), "abcde");
    let right = right.expect("three characters are left");
    assert_eq!(right.render(), "fgh");
    let (a, b) = left.split(1);
    assert_eq!(a.render(), "a");
    assert_eq!(b.expect("four characters are left").render(), "bcde");
    let (c, d) = right.split(3);
    assert_eq!(c.render(), "fgh");
    assert!(d.is_none());
}

#[test]
fn split_node_with_empty_last_leaf() {
    let r = leaf("abc").concat(leaf(""));
    let (left, right) = r.split(3);
    assert_eq!(left.render(), "abc");
    assert_eq!(right.expect("the empty leaf").render(), "");
    let r = leaf("abc").concat(leaf(""));
    let (left, right) = r.split(4);
    assert_eq!(left.render(), "abc");
    assert!(right.is_none());
}

#[test]
fn insert_at_both_ends() {
    assert_eq!(sample().insert(0, leaf(">> ")).render(), ">> peeeee my name");
    assert_eq!(sample().insert(14, leaf("!")).render(), "peeeee my name!");
    assert_eq!(sample().insert(99, leaf("!")).render(), "peeeee my name!");
}

#[test]
fn positions_count_characters() {
    let r = leaf("häß").concat(leaf("lich"));
    assert_eq!(r.size(), 7);
    assert_eq!(r.nth(1), Some('ä'));
    assert_eq!(r.nth(2), Some('ß'));
    let (left, right) = r.split(2);
    assert_eq!(left.render(), "hä");
    assert_eq!(right.expect("five characters are left").render(), "ßlich");
}

#[test]
fn construct_from_vec_folds_in_order() {
    assert!(Rope::construct_from_vec(Vec::new()).is_none());
    let one = Rope::construct_from_vec(vec![leaf("solo")]).expect("one rope");
    assert_eq!(one.render(), "solo");
    let r = Rope::construct_from_vec(vec![leaf("a"), leaf("bc"), leaf("def")]).expect("three ropes");
    assert_eq!(r.render(), "abcdef");
    assert_eq!(r.size(), 6);
}

#[test]
fn rec_display_appends() {
    let mut out = String::from("[");
    sample().rec_display(&mut out);
    out.push(']');
    assert_eq!(out, "[peeeee my name]");
}

#[test]
fn handle_edits_in_place() {
    let mut h = FString::new(String::from("peeeee"));
    h.concat(FString::new(String::from(" my name")));
    assert_eq!(h.render(), "peeeee my name");
    assert_eq!(h.size(), 14);
    assert_eq!(h.nth(7), Some('m'));
    assert_eq!(h.nth(14), None);
    h.insert(3, FString::new(String::from("DOOBA")));
    assert_eq!(h.render(), "peeDOOBAeee my name");
    h.delete(3, 7);
    assert_eq!(h.render(), "peeeee my name");
    h.insert_string(6, String::from(","));
    assert_eq!(h.render(), "peeeee, my name");
    let rest = h.split(7).expect("a cut before the end leaves a right part");
    assert_eq!(h.render(), "peeeee,");
    assert_eq!(rest.render(), " my name");
    assert!(h.split(7).is_none());
    assert_eq!(h.render(), "peeeee,");
}
