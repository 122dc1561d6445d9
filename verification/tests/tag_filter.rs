use taskdb::tags::parse_tag_filter;

fn strings(v: &[&str]) -> Vec<String> {
    v.iter().map(|s| s.to_string()).collect()
}

#[test]
fn plus_and_minus_words() {
    let (req, exc) = parse_tag_filter("+work -home");
    assert_eq!(req, strings(&["work"]));
    assert_eq!(exc, strings(&["home"]));
}

#[test]
fn bare_words_are_required() {
    let (req, exc) = parse_tag_filter("tag1 tag2");
    assert_eq!(req, strings(&["tag1", "tag2"]));
    assert!(exc.is_empty());
}

#[test]
fn lone_signs_are_required_words() {
    let (req, exc) = parse_tag_filter("+ - x");
    assert_eq!(req, strings(&["+", "-", "x"]));
    assert!(exc.is_empty());
}

#[test]
fn blank_filter_names_nothing() {
    let (req, exc) = parse_tag_filter(" \t ");
    assert!(req.is_empty());
    assert!(exc.is_empty());
}

#[test]
fn any_whitespace_separates_and_order_is_kept() {
    let (req, exc) = parse_tag_filter("\t+é\n-b  c -d");
    assert_eq!(req, strings(&["é", "c"]));
    assert_eq!(exc, strings(&["b", "d"]));
}

#[test]
fn every_word_is_counted_once() {
    let spec = "+a -b c +d -e";
    let (req, exc) = parse_tag_filter(spec);
    assert_eq!(req.len() + exc.len(), spec.split_whitespace().count());
}

#[test]
fn joined_filters_concatenate_their_tags() {
    let (ra, ea) = parse_tag_filter("+a -b");
    let (rb, eb) = parse_tag_filter("c -d");
    let (r, e) = parse_tag_filter("+a -b c -d");
    assert_eq!(r, [ra, rb].concat());
    assert_eq!(e, [ea, eb].concat());
}

#[test]
fn signed_tags_round_trip() {
    let required = strings(&["work", "-odd"]);
    let excluded = strings(&["home", "+x"]);
    let spec: Vec<String> = required
        .iter()
        .map(|t| format!("+{}", t))
        .chain(excluded.iter().map(|t| format!("-{}", t)))
        .collect();
    let (r, e) = parse_tag_filter(&spec.join(" "));
    assert_eq!(r, required);
    assert_eq!(e, excluded);
}
