use vertex_cover::parse::{parse, parse_edges, ParseError};

fn chars(s: &str) -> Vec<char> {
    s.chars().collect()
}

fn strings(v: &[Vec<char>]) -> Vec<String> {
    v.iter().map(|c| c.iter().collect()).collect()
}

#[test]
fn parse_numbers_names_by_first_appearance() {
    let input = chars("b a\n# a comment line\n\n  c   b  # trailing comment\na c\n");
    let (edges, names) = match parse_edges(&input) {
        Ok(r) => r,
        Err(_) => panic!("refused"),
    };
    assert_eq!(strings(&names), vec!["b", "a", "c"]);
    assert_eq!(edges, vec![(0, 1), (2, 0), (1, 2)]);
}

#[test]
fn parse_last_line_without_newline() {
    let input = chars("x y\r\ny z");
    let (edges, names) = match parse_edges(&input) {
        Ok(r) => r,
        Err(_) => panic!("refused"),
    };
    assert_eq!(strings(&names), vec!["x", "y", "z"]);
    assert_eq!(edges, vec![(0, 1), (1, 2)]);
}

#[test]
fn parse_empty_input_gives_empty_graph() {
    let (g, names) = match parse(&chars("")) {
        Ok(r) => r,
        Err(_) => panic!("refused"),
    };
    assert_eq!(names.len(), 0);
    assert_eq!(g.n(), 0);
    assert!(g.is_empty());
}

#[test]
fn parse_builds_graph() {
    let (g, names) = match parse(&chars("a b\nb c\nc a\na b\n")) {
        Ok(r) => r,
        Err(_) => panic!("refused"),
    };
    assert_eq!(strings(&names), vec!["a", "b", "c"]);
    assert_eq!(g.n(), 3);
    assert!(g.get_edge(0, 1) && g.get_edge(1, 2) && g.get_edge(2, 0));
    assert_eq!(g.get_degree(0), 2);
}

#[test]
fn parse_refuses_line_with_one_name() {
    match parse(&chars("a b\n\nc # only one\nd e f\n")) {
        Err(ParseError::InvalidLine(i, text)) => {
            assert_eq!(i, 2);
            assert_eq!(text.iter().collect::<String>(), "c ");
        }
        _ => panic!("expected an invalid line"),
    }
}

#[test]
fn parse_refuses_line_with_three_names() {
    match parse(&chars("a b\nd e f\n")) {
        Err(ParseError::InvalidLine(i, text)) => {
            assert_eq!(i, 1);
            assert_eq!(text.iter().collect::<String>(), "d e f");
        }
        _ => panic!("expected an invalid line"),
    }
}

#[test]
fn parse_refuses_self_loop() {
    match parse(&chars("a b\nq  q\nx\n")) {
        Err(ParseError::SelfLoop(i, text)) => {
            assert_eq!(i, 1);
            assert_eq!(text.iter().collect::<String>(), "q  q");
        }
        _ => panic!("expected a self loop"),
    }
}
