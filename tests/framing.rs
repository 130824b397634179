use item_stream::framing::{contains_pattern, find_from, frame_ends, has_property_start};

#[test]
fn frames_end_after_each_closing_tag() {
    let buf = b"<property>a</property><property>b</property><prop";
    assert_eq!(frame_ends(buf), vec![22, 44]);
    assert_eq!(&buf[..22], b"<property>a</property>");
    assert_eq!(&buf[22..44], b"<property>b</property>");
}

#[test]
fn frames_of_buffer_without_closing_tag() {
    assert_eq!(frame_ends(b""), Vec::<usize>::new());
    assert_eq!(frame_ends(b"<property>open"), Vec::<usize>::new());
    assert_eq!(frame_ends(b"</property>"), vec![11]);
}

#[test]
fn pattern_search() {
    assert_eq!(find_from(b"abcabc", b"bc", 0), Some(1));
    assert_eq!(find_from(b"abcabc", b"bc", 2), Some(4));
    assert_eq!(find_from(b"abcabc", b"bc", 5), None);
    assert_eq!(find_from(b"abc", b"", 3), Some(3));
    assert!(contains_pattern(b"xyz", b"yz"));
    assert!(!contains_pattern(b"xyz", b"zz"));
}

#[test]
fn property_start_detection() {
    assert!(has_property_start(b"  <property name=\"x\">"));
    assert!(!has_property_start(b"<prop>"));
}
