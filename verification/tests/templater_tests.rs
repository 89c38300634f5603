use czkawka::templater::{Templater, Variables};

#[test]
fn parse_test() {
    let str = String::from("Some text\nmore text\n <b> {my_variable} </b> \neven more text")
        .bytes()
        .collect();
    let var = &Templater::parse(&str)[0];

    assert_eq!(var.name, String::from("my_variable"));
    assert_eq!(var.start_index, 25);
    assert_eq!(var.end_index, 38);
}

#[test]
fn parse_space_test() {
    let str = String::from("asd { ddd } dsa").bytes().collect();
    let var = &Templater::parse(&str)[0];

    assert_eq!(var.name, String::from("ddd"));
    assert_eq!(var.start_index, 4);
    assert_eq!(var.end_index, 11);
}

#[test]
fn parse_finds_every_variable() {
    let html = b"{a}{}{ b }x}{ {c} {d".to_vec();
    let vars = Templater::parse(&html);
    let found: Vec<(&str, usize, usize)> =
        vars.iter().map(|v| (v.name.as_str(), v.start_index, v.end_index)).collect();
    // An empty pair of braces is no variable, and the last opening brace counts.
    assert_eq!(found, vec![("a", 0, 3), ("b", 5, 10), ("c", 14, 17)]);
    assert!(Templater::parse(&b"no braces".to_vec()).is_empty());
    assert!(Templater::parse(&b"} {".to_vec()).is_empty());
}

#[test]
fn parse_trims_white_space_of_every_kind() {
    let html = "{\t\u{a0}\u{2003} n\u{e9}m \u{3000}\r\n}".as_bytes().to_vec();
    let vars = Templater::parse(&html);
    assert_eq!(vars.len(), 1);
    assert_eq!(vars[0].name, "n\u{e9}m");
    let html = "{ \u{200b}x }{   }".as_bytes().to_vec();
    let vars = Templater::parse(&html);
    assert_eq!(vars[0].name, "\u{200b}x");
    assert_eq!(vars[1].name, "");
}

#[test]
fn get_fills_in_the_values() {
    let templater = Templater::new("web");
    assert_eq!(templater.file_name("main"), "web/main.component");
    let html = "<h1>{ title }</h1><p>{body}</p>\u{e9}".as_bytes().to_vec();
    let mut vars = Variables::new();
    vars.set("title", "Topics".to_string());
    vars.set("body", "none".to_string());
    vars.set("body", "none yet".to_string());
    assert_eq!(templater.get(&html, &vars), "<h1>Topics</h1><p>none yet</p>\u{e9}");

    let mut vars = Variables::new();
    vars.set("title", "Topics".to_string());
    assert_eq!(templater.get(&html, &vars), "Error parsing template! Missing attribute: body");
    assert_eq!(templater.get(&b"plain".to_vec(), &vars), "plain");
}

#[test]
fn parse_reads_names_in_a_template_that_is_no_text() {
    let html = b"\xff{a}\xfe{ b}".to_vec();
    let vars = Templater::parse(&html);
    assert_eq!(vars.len(), 2);
    assert_eq!((vars[0].name.as_str(), vars[0].start_index, vars[0].end_index), ("a", 1, 4));
    assert_eq!((vars[1].name.as_str(), vars[1].start_index, vars[1].end_index), ("b", 5, 9));
}
