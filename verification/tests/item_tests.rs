use axp::{parse, prim_first, prim_if, prim_quote, prim_tail, Atom, Dict, Item, List};

fn atom(s: &[u8]) -> Item {
    Item::new_atom(s)
}

#[test]
fn item_kinds_and_emptiness() {
    assert!(atom(b"").is_empty());
    assert!(!atom(b"a").is_empty());
    assert!(Item::nil().is_empty());
    assert!(atom(b"a").is_atom());
    assert!(Item::nil().is_list());
    assert!(Item::new_map(vec![]).is_map());
    assert!(Item::new_map(vec![]).is_empty());
}

#[test]
fn list_first_tail_push() {
    let mut l = List::new(vec![atom(b"a"), atom(b"b"), atom(b"c")]);
    assert_eq!(l.first(), atom(b"a"));
    assert_eq!(l.tail(), List::new(vec![atom(b"b"), atom(b"c")]));
    assert_eq!(List::nil().first(), Item::nil());
    assert_eq!(List::nil().tail(), List::nil());
    l.push(atom(b"d"));
    assert_eq!(l.len(), 4);
    assert_eq!(l.get(3), &atom(b"d"));
}

#[test]
fn dict_push_and_get() {
    let mut m = Dict::new(vec![]);
    assert!(m.is_empty());
    m.push(atom(b"k"), atom(b"v"));
    m.push(atom(b"k"), atom(b"w"));
    assert_eq!(m.len(), 2);
    assert_eq!(m.get(1), &(atom(b"k"), atom(b"w")));
}

#[test]
fn format_items() {
    let list = Item::new_list(vec![atom(b"a"), Item::new_list(vec![])]);
    assert_eq!(list.format(0), "(a ())");
    let map = Item::new_map(vec![
        (atom(b"key"), atom(b"value")),
        (atom(b"list"), list.clone()),
    ]);
    assert_eq!(map.format(0), "(key: value list: (a ()))");
    assert_eq!(Item::nil().format(0), "()");
    assert_eq!(Item::new_map(vec![]).format(0), "()");
    assert_eq!(atom(b"x\ny").format(0), "x\\ny");
    // the width bounds each atom, not the whole rendering
    let long = Item::new_list(vec![atom(b"abcdefghijklmn"), atom(b"ab")]);
    assert_eq!(long.format(7), "(abc⠤lmn ab)");
}

#[test]
fn atom_format_and_new() {
    let a = Atom::new(b"hello");
    assert!(!a.is_empty());
    assert_eq!(a.format(0), "hello");
    assert_eq!(Atom::new(b"\x01\xff").format(0), "\\x01\\Uff;");
}

#[test]
fn round_trip_structure() {
    // parse . format is the identity on plain trees, up to the enclosing
    // top-level list; atoms may be longer than one lexer token
    let v = Item::new_list(vec![
        atom("y".repeat(50).as_bytes()),
        atom(b"a"),
        Item::new_list(vec![atom(b"b"), Item::new_list(vec![])]),
        Item::new_map(vec![(atom(b"k"), atom(b"v"))]),
    ]);
    let text = v.format(0);
    assert_eq!(text, format!("({} a (b ()) (k: v))", "y".repeat(50)));
    let back = parse(text.as_bytes()).unwrap();
    assert_eq!(back, Item::new_list(vec![v]));
}

#[test]
fn primitives() {
    let args = List::new(vec![atom(b"x"), atom(b"y"), atom(b"z")]);
    assert_eq!(prim_quote(&args), Item::new_list(vec![atom(b"x"), atom(b"y"), atom(b"z")]));
    assert_eq!(prim_first(&args), atom(b"x"));
    assert_eq!(prim_tail(&args), Item::new_list(vec![atom(b"y"), atom(b"z")]));
    // non-empty condition picks the second argument
    assert_eq!(prim_if(&args), atom(b"y"));
    // empty condition picks the third
    let cond_empty = List::new(vec![Item::nil(), atom(b"t"), atom(b"e")]);
    assert_eq!(prim_if(&cond_empty), atom(b"e"));
    // missing branches read as nil
    assert_eq!(prim_if(&List::nil()), Item::nil());
}
