use hulk_compiler::typings::types_ast::TypeAST;
use hulk_compiler::typings::function_def::{FunctionDef, FunctionParams};

fn def(name: &str, ret: &str) -> FunctionDef {
    FunctionDef { name: name.to_string(), params: vec![], return_type: ret.to_string() }
}

fn animals() -> TypeAST {
    let mut t = TypeAST::new();
    t.add_type("Animal".to_string(), vec![], None, vec![], vec![("speak".to_string(), def("speak", "String"))]);
    t.add_type("Dog".to_string(), vec![], Some("Animal".to_string()), vec![], vec![]);
    t.add_type("Cat".to_string(), vec![], Some("Animal".to_string()), vec![], vec![]);
    t
}

#[test]
fn basic_types_are_children_of_object() {
    let t = TypeAST::new();
    let object = t.get_type("Object").unwrap();
    assert_eq!(object.depth, 0);
    assert_eq!(object.children, vec!["String", "Number", "Boolean", "Unknown"]);
    let number = t.get_type("Number").unwrap();
    assert_eq!(number.depth, 1);
    assert_eq!(number.parent, Some("Object".to_string()));
    assert!(t.get_type("Foo").is_none());
    assert!(t.root.children.is_empty());
}

#[test]
fn added_type_without_parent_is_a_root_child() {
    let t = animals();
    assert_eq!(t.root.children, vec!["Animal".to_string()]);
    assert_eq!(t.get_type("Animal").unwrap().depth, 0);
    let animal = t.get_type("Animal").unwrap();
    assert_eq!(animal.children, vec!["Dog".to_string(), "Cat".to_string()]);
    assert_eq!(t.get_type("Dog").unwrap().depth, 1);
}

#[test]
fn adding_a_type_again_replaces_it() {
    let mut t = animals();
    let params = vec![FunctionParams { name: "n".to_string(), signature: "Number".to_string() }];
    t.add_type("Dog".to_string(), params, Some("Animal".to_string()), vec![], vec![]);
    let dog = t.get_type("Dog").unwrap();
    assert_eq!(dog.params.len(), 1);
    assert_eq!(t.nodes.iter().filter(|n| n.name == "Dog").count(), 1);
}

#[test]
fn ancestors_follow_parents() {
    let t = animals();
    let animal = t.get_type("Animal").unwrap();
    let dog = t.get_type("Dog").unwrap();
    assert!(t.is_ancestor(&animal, &dog));
    assert!(t.is_ancestor(&dog, &dog));
    assert!(!t.is_ancestor(&dog, &animal));
    let object = t.get_type("Object").unwrap();
    let number = t.get_type("Number").unwrap();
    assert!(t.is_ancestor(&object, &number));
}

#[test]
fn lowest_common_ancestor_of_siblings() {
    let t = animals();
    let dog = t.get_type("Dog").unwrap();
    let cat = t.get_type("Cat").unwrap();
    assert_eq!(t.find_lca(&dog, &cat).name, "Animal");
    let number = t.get_type("Number").unwrap();
    let string = t.get_type("String").unwrap();
    assert_eq!(t.find_lca(&number, &string).name, "Object");
}

#[test]
fn lowest_common_ancestor_falls_back_to_root() {
    let t = animals();
    let dog = t.get_type("Dog").unwrap();
    let number = t.get_type("Number").unwrap();
    assert_eq!(t.find_lca(&dog, &number).name, "Object");
}

#[test]
fn methods_are_found_up_the_hierarchy() {
    let mut t = animals();
    let m = t.find_method("Dog".to_string(), "speak".to_string()).unwrap();
    assert_eq!(m.name, "speak");
    assert_eq!(m.return_type, "String");
    assert!(t.find_method("Dog".to_string(), "fly".to_string()).is_none());
    assert!(t.find_method("Ghost".to_string(), "speak".to_string()).is_none());
}

#[test]
fn no_cycle_in_basic_tree() {
    let mut t = TypeAST::new();
    assert_eq!(t.inheritance_cicle(), None);
}

#[test]
fn cycle_search_rewrites_depths() {
    let mut t = TypeAST::new();
    for n in t.nodes.iter_mut() {
        if n.name == "Number" {
            n.depth = 7;
        }
    }
    assert_eq!(t.inheritance_cicle(), None);
    assert_eq!(t.get_type("Number").unwrap().depth, 1);
}

#[test]
fn cycle_is_reported() {
    let mut t = TypeAST::new();
    t.add_type("A".to_string(), vec![], Some("B".to_string()), vec![], vec![]);
    t.add_type("B".to_string(), vec![], Some("A".to_string()), vec![], vec![]);
    for n in t.nodes.iter_mut() {
        if n.name == "B" {
            n.add_child("A".to_string());
        }
    }
    assert_eq!(t.inheritance_cicle(), Some("A".to_string()));
}

#[test]
fn type_node_members() {
    let mut t = animals();
    let mut dog = t.get_type("Dog").unwrap();
    dog.add_variable("name".to_string(), Box::new("String".to_string()));
    dog.add_method("bark".to_string(), Box::new(def("bark", "String")));
    assert_eq!(dog.variables, vec![("name".to_string(), "String".to_string())]);
    assert_eq!(dog.get_method(&"bark".to_string()).unwrap().name, "bark");
    assert!(dog.get_method(&"speak".to_string()).is_none());
    dog.set_parent("Cat".to_string());
    assert_eq!(dog.parent, Some("Cat".to_string()));
    let _ = t.find_method("Cat".to_string(), "speak".to_string());
}

#[test]
fn lca_is_ancestor_of_both() {
    let t = animals();
    let dog = t.get_type("Dog").unwrap();
    let cat = t.get_type("Cat").unwrap();
    let lca = t.find_lca(&dog, &cat);
    assert!(t.is_ancestor(&lca, &dog));
    assert!(t.is_ancestor(&lca, &cat));
}

#[test]
fn reported_cycle_leads_back_to_itself() {
    let mut t = TypeAST::new();
    t.add_type("A".to_string(), vec![], Some("C".to_string()), vec![], vec![]);
    t.add_type("B".to_string(), vec![], Some("A".to_string()), vec![], vec![]);
    t.add_type("C".to_string(), vec![], Some("B".to_string()), vec![], vec![]);
    for n in t.nodes.iter_mut() {
        if n.name == "C" {
            n.add_child("A".to_string());
        }
    }
    let found = t.inheritance_cicle().unwrap();
    let mut current = found.clone();
    let mut steps = 0;
    loop {
        let node = t.get_type(&current).unwrap();
        current = node.children[0].clone();
        steps += 1;
        if current == found || steps > 10 {
            break;
        }
    }
    assert_eq!(current, found);
}

#[test]
fn lowest_common_ancestor_is_the_closest_one() {
    let mut t = animals();
    t.add_type("Puppy".to_string(), vec![], Some("Dog".to_string()), vec![], vec![]);
    t.add_type("Hound".to_string(), vec![], Some("Dog".to_string()), vec![], vec![]);
    let puppy = t.get_type("Puppy").unwrap();
    let hound = t.get_type("Hound").unwrap();
    let cat = t.get_type("Cat").unwrap();
    assert_eq!(t.find_lca(&puppy, &hound).name, "Dog");
    assert_eq!(t.find_lca(&puppy, &cat).name, "Animal");
    let dog = t.get_type("Dog").unwrap();
    assert_eq!(t.find_lca(&puppy, &dog).name, "Dog");
}

#[test]
fn acyclic_tree_reports_no_cycle() {
    let mut t = animals();
    t.add_type("Puppy".to_string(), vec![], Some("Dog".to_string()), vec![], vec![]);
    assert_eq!(t.inheritance_cicle(), None);
}
