use structurer::markup::markup_parse_string;

#[test]
fn test_empty() {
    assert_eq!(
        markup_parse_string("".to_string()),
        vec![("".to_string(), vec![false, false, false, false, false])]
    );
}

#[test]
fn test_small() {
    assert_eq!(
        markup_parse_string("a".to_string()),
        vec![("a".to_string(), vec![false, false, false, false, false])]
    );
}

#[test]
fn test_bold_leftover() {
    assert_eq!(
        markup_parse_string("[!b]bold[!b]not bold".to_string()),
        vec![
            ("bold".to_string(), vec![false, true, false, false, false]),
            (
                "not bold".to_string(),
                vec![false, false, false, false, false]
            )
        ]
    );
}

#[test]
fn test_bold_exact() {
    assert_eq!(
        markup_parse_string("[!b]bold[!b]".to_string()),
        vec![("bold".to_string(), vec![false, true, false, false, false])]
    );
}

#[test]
fn test_overlapping() {
    assert_eq!(
        markup_parse_string("[!b]bold[!i]bold and italic[!b]".to_string()),
        vec![
            ("bold".to_string(), vec![false, true, false, false, false]),
            (
                "bold and italic".to_string(),
                vec![true, true, false, false, false]
            )
        ]
    );
}

#[test]
fn test_overlapping_more() {
    assert_eq!(
        markup_parse_string("nothing[!l]bold[!i]bold and italic[!l]".to_string()),
        vec![
            (
                "nothing".to_string(),
                vec![false, false, false, false, false]
            ),
            ("bold".to_string(), vec![false, true, false, false, false]),
            (
                "bold and italic".to_string(),
                vec![true, true, false, false, false]
            )
        ]
    );
}
