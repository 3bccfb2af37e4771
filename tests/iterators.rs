use idml::{parse, Node};

fn with_name(node: &Node, name: &str) -> Vec<String> {
    node.with_name(name).into_iter().map(|node| node.name().to_string()).collect::<Vec<String>>()
}

fn with_names(node: &Node, names: &[&str]) -> Vec<String> {
    node.with_names(names).into_iter().map(|node| node.name().to_string()).collect::<Vec<String>>()
}

fn excluding_name(node: &Node, name: &str) -> Vec<String> {
    node.excluding_name(name).into_iter().map(|node| node.name().to_string()).collect::<Vec<String>>()
}

fn excluding_names(node: &Node, names: &[&str]) -> Vec<String> {
    node.excluding_names(names).into_iter().map(|node| node.name().to_string()).collect::<Vec<String>>()
}

const INPUT: &str = r#".A
    .B
    .B
    .C
    .D
    .D
    .D
"#;

#[test]
fn iterators__0001() {
    let root = parse(INPUT).unwrap();
    assert_eq!(1, root.children().iter().count());
    assert_eq!(1, root.child_count());
    let node = root.children().iter().next().unwrap();
    assert_eq!(6, node.children().iter().count());
    assert_eq!(6, node.child_count());
    assert_eq!('.', node.delimiter());
    assert_eq!("A", node.name());
    assert_eq!("\n", node.content());
    assert_eq!("", node.text());
    assert_eq!(vec!["B", "B"], with_name(node, "B"));
    assert_eq!(vec!["C"], with_name(node, "C"));
    assert_eq!(vec!["D", "D", "D"], with_name(node, "D"));
    assert!(with_name(node, "E").is_empty());
}

#[test]
fn iterators__0002() {
    let root = parse(INPUT).unwrap();
    let node = root.children().iter().next().unwrap();
    assert_eq!(vec!["C", "D", "D", "D"], excluding_name(node, "B"));
    assert_eq!(vec!["B", "B", "D", "D", "D"], excluding_name(node, "C"));
    assert_eq!(vec!["B", "B", "C"], excluding_name(node, "D"));
}

#[test]
fn iterators__0003() {
    let root = parse(INPUT).unwrap();
    let node = root.children().iter().next().unwrap();
    assert_eq!(vec!["B", "B"], with_names(node, &["B"]));
    assert_eq!(vec!["B", "B", "D", "D", "D"], with_names(node, &["B", "D"]));
    assert_eq!(vec!["B", "B", "C"], with_names(node, &["C", "B"]));
}

#[test]
fn iterators__0004() {
    let root = parse(INPUT).unwrap();
    let node = root.children().iter().next().unwrap();
    assert_eq!(vec!["C", "D", "D", "D"], excluding_names(node, &["B"]));
    assert_eq!(vec!["C"], excluding_names(node, &["B", "D"]));
    assert_eq!(vec!["D", "D", "D"], excluding_names(node, &["C", "B"]));
}
