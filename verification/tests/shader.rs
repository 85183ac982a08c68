use thorn::shader::{ShaderBundle, ShaderObj};

#[test]
fn shader_obj_keeps_name_and_data() {
    let s = ShaderObj::new(String::from("blank.frag"), vec![1, 2, 3]);
    assert_eq!(s.name(), "blank.frag");
    assert_eq!(s.data(), &[1, 2, 3]);
}

#[test]
fn bundle_stores_and_finds_by_name() {
    let mut b = ShaderBundle::new();
    b.add(ShaderObj::new(String::from("a"), vec![1]));
    b.add(ShaderObj::new(String::from("b"), vec![2]));
    assert_eq!(b.len(), 2);
    let got = b.get(&String::from("a")).expect("name a present");
    assert_eq!(got.data(), &[1]);
    assert!(b.get(&String::from("missing")).is_none());
}

#[test]
fn adding_same_name_replaces() {
    let mut b = ShaderBundle::new();
    b.add(ShaderObj::new(String::from("a"), vec![1]));
    b.add(ShaderObj::new(String::from("a"), vec![9, 9]));
    assert_eq!(b.len(), 1);
    assert_eq!(b.get(&String::from("a")).unwrap().data(), &[9, 9]);
}
