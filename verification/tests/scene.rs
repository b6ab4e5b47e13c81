use true_engine::game_engine::{Instance, InstanceRef, Node, Part, Scene, Srgba, Workspace};

fn part(scene: &mut Scene, name: &str) -> InstanceRef {
    scene.insert(Node::Part(Part::new(name)))
}

#[test]
fn workspace_new_is_empty_and_named() {
    let ws = Workspace::new();
    assert_eq!(ws.get_name(), "Workspace");
    assert!(ws.get_children().is_empty());
    assert_eq!(ws.get_parent(), None);
}

#[test]
fn workspace_name_and_parent_are_fixed() {
    let mut ws = Workspace::new();
    ws.set_name("Other".to_string());
    ws.set_parent(Some(3));
    assert_eq!(ws.get_name(), "Workspace");
    assert_eq!(ws.get_parent(), None);
    assert!(ws.get_children().is_empty());
}

#[test]
fn part_new_defaults() {
    let p = Part::new("MyPart");
    assert_eq!(p.get_name(), "MyPart");
    assert!(p.get_children().is_empty());
    assert_eq!(p.get_parent(), None);
    assert_eq!(p.get_color(), Srgba { r: 255, g: 0, b: 0, a: 255 });
    assert_eq!(Srgba::red(), Srgba { r: 255, g: 0, b: 0, a: 255 });
}

#[test]
fn part_set_name_then_get_name() {
    let mut p = Part::new("MyPart");
    p.set_name("Renamed".to_string());
    assert_eq!(p.get_name(), "Renamed");
    assert_eq!(p.get_color(), Srgba::red());
}

#[test]
fn part_set_parent_then_get_parent() {
    let mut p = Part::new("A");
    p.set_parent(Some(7));
    assert_eq!(p.get_parent(), Some(7));
    p.set_parent(None);
    assert_eq!(p.get_parent(), None);
}

#[test]
fn add_child_appends_in_order() {
    let mut p = Part::new("A");
    p.add_child(&4);
    p.add_child(&2);
    p.add_child(&4);
    assert_eq!(p.get_children(), &vec![4, 2, 4]);
    assert_eq!(p.get_name(), "A");
    let mut ws = Workspace::new();
    ws.add_child(&9);
    assert_eq!(ws.get_children(), &vec![9]);
}

#[test]
fn get_children_mut_push_is_seen() {
    let mut ws = Workspace::new();
    ws.get_children_mut().push(5);
    ws.get_children_mut().push(6);
    assert_eq!(ws.get_children(), &vec![5, 6]);
    let mut node = Node::Part(Part::new("P"));
    node.get_children_mut().push(1);
    assert_eq!(node.get_children(), &vec![1]);
}

#[test]
fn part_color_set_get() {
    let mut p = Part::new("A");
    p.set_color(Srgba { r: 1, g: 2, b: 3, a: 255 });
    assert_eq!(p.get_color(), Srgba { r: 1, g: 2, b: 3, a: 255 });
    p.color = Srgba { r: 9, g: 8, b: 7, a: 6 };
    assert_eq!(p.get_color(), Srgba { r: 9, g: 8, b: 7, a: 6 });
}

#[test]
fn scene_insert_hands_out_places_in_order() {
    let mut scene = Scene::new();
    assert_eq!(scene.len(), 0);
    let ws = scene.insert(Node::Workspace(Workspace::new()));
    let a = part(&mut scene, "A");
    let b = part(&mut scene, "B");
    assert_eq!((ws, a, b), (0, 1, 2));
    assert_eq!(scene.len(), 3);
    assert_eq!(scene.borrow(a).get_name(), "A");
    assert_eq!(scene.borrow(b).get_name(), "B");
    assert_eq!(scene.borrow(ws).get_name(), "Workspace");
}

#[test]
fn node_dispatch_and_downcast() {
    let mut scene = Scene::new();
    let ws = scene.insert(Node::Workspace(Workspace::new()));
    let a = part(&mut scene, "A");
    assert!(scene.borrow(ws).as_part().is_none());
    assert_eq!(scene.borrow(a).as_part().map(|p| p.get_name()), Some("A".to_string()));
    match scene.borrow_mut(a).as_part_mut() {
        Some(p) => p.set_color(Srgba { r: 10, g: 20, b: 30, a: 255 }),
        None => panic!("a part was expected"),
    }
    assert_eq!(scene.borrow(a).as_part().unwrap().get_color(), Srgba { r: 10, g: 20, b: 30, a: 255 });
    assert!(scene.borrow_mut(ws).as_part_mut().is_none());
    scene.borrow_mut(ws).set_name("X".to_string());
    assert_eq!(scene.borrow(ws).get_name(), "Workspace");
    scene.borrow_mut(a).set_name("Z".to_string());
    assert_eq!(scene.borrow(a).get_name(), "Z");
    scene.borrow_mut(a).set_parent(Some(ws));
    assert_eq!(scene.borrow(a).get_parent(), Some(ws));
}

#[test]
fn descendants_of_new_workspace_are_empty() {
    let mut scene = Scene::new();
    let ws = scene.insert(Node::Workspace(Workspace::new()));
    assert!(scene.borrow(ws).get_descendants(&scene).is_empty());
}

#[test]
fn descendants_are_in_preorder() {
    // ws -> [a, d]; a -> [b, c]; c -> [e]
    let mut scene = Scene::new();
    let ws = scene.insert(Node::Workspace(Workspace::new()));
    let a = part(&mut scene, "a");
    let b = part(&mut scene, "b");
    let c = part(&mut scene, "c");
    let d = part(&mut scene, "d");
    let e = part(&mut scene, "e");
    scene.borrow_mut(ws).add_child(&a);
    scene.borrow_mut(ws).add_child(&d);
    scene.borrow_mut(a).add_child(&b);
    scene.borrow_mut(a).add_child(&c);
    scene.borrow_mut(c).add_child(&e);
    assert_eq!(scene.borrow(ws).get_descendants(&scene), vec![a, b, c, e, d]);
    assert_eq!(scene.borrow(a).get_descendants(&scene), vec![b, c, e]);
    assert_eq!(scene.borrow(e).get_descendants(&scene), Vec::<InstanceRef>::new());
}

#[test]
fn shared_child_is_listed_under_each_parent() {
    let mut scene = Scene::new();
    let ws = scene.insert(Node::Workspace(Workspace::new()));
    let a = part(&mut scene, "a");
    let b = part(&mut scene, "b");
    let s = part(&mut scene, "shared");
    scene.borrow_mut(ws).add_child(&a);
    scene.borrow_mut(ws).add_child(&b);
    scene.borrow_mut(a).add_child(&s);
    scene.borrow_mut(b).add_child(&s);
    assert_eq!(scene.borrow(ws).get_descendants(&scene), vec![a, s, b, s]);
}

#[test]
fn add_child_extends_descendants() {
    // law: after adding c under p, below p comes what was there, then c,
    // then everything below c.
    let mut scene = Scene::new();
    let p = scene.insert(Node::Workspace(Workspace::new()));
    let x = part(&mut scene, "x");
    let c = part(&mut scene, "c");
    let y = part(&mut scene, "y");
    scene.borrow_mut(p).add_child(&x);
    scene.borrow_mut(c).add_child(&y);
    let before = scene.borrow(p).get_descendants(&scene);
    let below_c = scene.descendants_of(&vec![c]);
    scene.borrow_mut(p).add_child(&c);
    let after = scene.borrow(p).get_descendants(&scene);
    let mut expected = before.clone();
    expected.extend(below_c);
    assert_eq!(after, expected);
    assert_eq!(after, vec![x, c, y]);
}

#[test]
fn cycle_is_refused_by_try() {
    let mut scene = Scene::new();
    let a = part(&mut scene, "a");
    let b = part(&mut scene, "b");
    scene.borrow_mut(a).add_child(&b);
    assert_eq!(scene.try_descendants_of(scene.borrow(a).get_children()), Some(vec![b]));
    // closing the cycle a -> b -> a: the traversal no longer finishes
    scene.borrow_mut(b).add_child(&a);
    assert_eq!(scene.try_descendants_of(scene.borrow(a).get_children()), None);
    assert_eq!(scene.try_descendants_of(scene.borrow(b).get_children()), None);
}

#[test]
fn self_child_is_refused_by_try() {
    let mut scene = Scene::new();
    let a = part(&mut scene, "a");
    scene.borrow_mut(a).add_child(&a);
    assert_eq!(scene.try_descendants_of(scene.borrow(a).get_children()), None);
}

#[test]
fn dangling_handle_is_refused_by_try() {
    let mut scene = Scene::new();
    let a = part(&mut scene, "a");
    scene.borrow_mut(a).add_child(&42);
    assert_eq!(scene.try_descendants_of(scene.borrow(a).get_children()), None);
    assert_eq!(scene.try_descendants_of(&vec![]), Some(vec![]));
}

#[test]
fn deep_chain_finishes() {
    // a chain as long as the scene: the bound of the traversal is tight
    let mut scene = Scene::new();
    let mut handles = Vec::new();
    for i in 0..50 {
        handles.push(part(&mut scene, &format!("p{}", i)));
    }
    for i in 0..49 {
        let child = handles[i + 1];
        scene.borrow_mut(handles[i]).add_child(&child);
    }
    let d = scene.try_descendants_of(&vec![handles[0]]).expect("finishes");
    assert_eq!(d, handles);
    assert_eq!(scene.borrow(handles[0]).get_descendants(&scene), handles[1..].to_vec());
}

#[test]
fn no_node_is_listed_below_itself() {
    let mut scene = Scene::new();
    let ws = scene.insert(Node::Workspace(Workspace::new()));
    let a = part(&mut scene, "a");
    let b = part(&mut scene, "b");
    let c = part(&mut scene, "c");
    scene.borrow_mut(ws).add_child(&a);
    scene.borrow_mut(a).add_child(&b);
    scene.borrow_mut(b).add_child(&c);
    scene.borrow_mut(a).add_child(&c);
    let all = scene.borrow(ws).get_descendants(&scene);
    assert_eq!(all, vec![a, b, c, c]);
    for x in all {
        assert!(x < scene.len());
        assert!(!scene.borrow(x).get_descendants(&scene).contains(&x));
    }
}

#[test]
fn adding_an_ancestor_as_child_closes_a_cycle() {
    let mut scene = Scene::new();
    let a = part(&mut scene, "a");
    let b = part(&mut scene, "b");
    let c = part(&mut scene, "c");
    scene.borrow_mut(a).add_child(&b);
    scene.borrow_mut(b).add_child(&c);
    // `c` has `a` above it: making `a` a child of `c` closes a cycle
    scene.borrow_mut(c).add_child(&a);
    assert_eq!(scene.try_descendants_of(scene.borrow(c).get_children()), None);
}

#[test]
fn add_part_under_appends_a_fresh_part() {
    let mut scene = Scene::new();
    let ws = scene.insert(Node::Workspace(Workspace::new()));
    let a = scene.add_part_under(ws, "MyPart");
    let b = scene.add_part_under(ws, "Other");
    let c = scene.add_part_under(a, "Inner");
    assert_eq!((a, b, c), (1, 2, 3));
    assert_eq!(scene.borrow(ws).get_children(), &vec![a, b]);
    assert_eq!(scene.borrow(a).get_children(), &vec![c]);
    let p = scene.borrow(b).as_part().expect("a part");
    assert_eq!(p.get_name(), "Other");
    assert_eq!(p.get_color(), Srgba::red());
    assert_eq!(p.get_parent(), None);
    assert!(p.get_children().is_empty());
    assert_eq!(scene.borrow(ws).get_descendants(&scene), vec![a, c, b]);
    assert_eq!(scene.borrow(ws).get_name(), "Workspace");
}
