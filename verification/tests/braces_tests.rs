use cosmic_ctl::braces::split_string_respect_braces;

fn split(s: &str) -> Vec<String> {
    split_string_respect_braces(Some(s.to_string()))
}

fn strings(v: &[&str]) -> Vec<String> {
    v.iter().map(|s| s.to_string()).collect()
}

#[test]
fn split_none_is_empty() {
    assert_eq!(split_string_respect_braces(None), Vec::<String>::new());
}

#[test]
fn split_plain_list() {
    assert_eq!(split("a,b,c"), strings(&["a", "b", "c"]));
    assert_eq!(split(""), Vec::<String>::new());
    assert_eq!(split("single"), strings(&["single"]));
}

#[test]
fn split_keeps_commas_in_braces() {
    assert_eq!(split("a,{b,c},d"), strings(&["a", "{b,c}", "d"]));
    assert_eq!(split("com.{a,b}/v1,x/{y,{z,w}}"), strings(&["com.{a,b}/v1", "x/{y,{z,w}}"]));
}

#[test]
fn split_trims_and_drops_empty_items() {
    assert_eq!(split(" a , b "), strings(&["a", "b"]));
    assert_eq!(split(",,a,"), strings(&["a"]));
    // an item of whitespace alone is not empty before trimming
    assert_eq!(split("a, ,b"), strings(&["a", "", "b"]));
    assert_eq!(split("\u{3000}x\t,y\n"), strings(&["x", "y"]));
}

#[test]
fn split_unbalanced_braces() {
    // after a closing brace with no opening one the depth is negative: commas do not split
    assert_eq!(split("}a,b"), strings(&["}a,b"]));
    assert_eq!(split("{a,b"), strings(&["{a,b"]));
    assert_eq!(split("a},{b,c"), strings(&["a},{b", "c"]));
}

#[test]
fn split_rejoins_to_input() {
    for s in ["x,{y,z}", "a,b,c", "{a,b},{c,d}"] {
        assert_eq!(split(s).join(","), s);
    }
}
