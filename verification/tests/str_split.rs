use lib::string_tools::str_split::StrSplit;

fn collect_pieces<'a>(mut split: StrSplit<'a>) -> Vec<&'a str> {
    let mut out = Vec::new();
    while let Some(piece) = split.next() {
        out.push(piece);
    }
    out
}

#[test]
fn working_example() {
    let haystack = "a b c d e";
    let letters_collected: Vec<&str> = collect_pieces(StrSplit::new(haystack, " "));
    assert_eq!(letters_collected, vec!["a", "b", "c", "d", "e"]);
}

#[test]
fn tail_example() {
    let haystack = "a b c d ";
    let letters_collected: Vec<&str> = collect_pieces(StrSplit::new(haystack, " "));
    assert_eq!(letters_collected, vec!["a", "b", "c", "d", ""]);
}

#[test]
fn multi_byte_delimiter_and_unicode() {
    assert_eq!(collect_pieces(StrSplit::new("a--b--c", "--")), vec!["a", "b", "c"]);
    assert_eq!(collect_pieces(StrSplit::new("é,ü,ß", ",")), vec!["é", "ü", "ß"]);
    assert_eq!(collect_pieces(StrSplit::new("xéyéz", "é")), vec!["x", "y", "z"]);
}

#[test]
fn no_occurrence_gives_whole_haystack() {
    assert_eq!(collect_pieces(StrSplit::new("abc", "x")), vec!["abc"]);
    assert_eq!(collect_pieces(StrSplit::new("", " ")), vec![""]);
    assert_eq!(collect_pieces(StrSplit::new("ab", "abc")), vec!["ab"]);
}

#[test]
fn leading_and_doubled_delimiters_give_empty_pieces() {
    assert_eq!(collect_pieces(StrSplit::new(" a  b", " ")), vec!["", "a", "", "b"]);
}

#[test]
fn empty_delimiter_keeps_handing_out_empty_pieces() {
    let mut split = StrSplit::new("abc", "");
    for _ in 0..5 {
        assert_eq!(split.next(), Some(""));
    }
}
