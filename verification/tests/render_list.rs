use rendology::{Instance, Object, RenderList};

fn objects(list: &RenderList<u32>) -> Vec<(usize, u32)> {
    list.instances().iter().map(|instance| (instance.object.index, instance.params)).collect()
}

#[test]
fn new_list_is_empty() {
    let list: RenderList<u32> = RenderList::new();
    assert!(list.instances().is_empty());
}

#[test]
fn default_list_is_empty() {
    let list: RenderList<u32> = Default::default();
    assert!(list.instances().is_empty());
}

#[test]
fn add_instance_appends_a_copy() {
    let mut list = RenderList::new();
    let instance = Instance { object: Object { index: 3 }, params: 7u32 };
    list.add_instance(&instance);
    list.add_instance(&Instance { object: Object { index: 1 }, params: 9 });
    list.add_instance(&instance);
    assert_eq!(objects(&list), vec![(3, 7), (1, 9), (3, 7)]);
}

#[test]
fn add_appends_an_instance_of_the_object() {
    let mut list = RenderList::new();
    list.add(Object { index: 2 }, &11u32);
    list.add(Object { index: 0 }, &12u32);
    assert_eq!(objects(&list), vec![(2, 11), (0, 12)]);
}

#[test]
fn add_and_add_instance_keep_the_order() {
    let mut list = RenderList::new();
    list.add(Object { index: 5 }, &1u32);
    list.add_instance(&Instance { object: Object { index: 6 }, params: 2 });
    list.add(Object { index: 7 }, &3u32);
    assert_eq!(objects(&list), vec![(5, 1), (6, 2), (7, 3)]);
}

#[test]
fn clear_removes_everything() {
    let mut list = RenderList::new();
    list.add(Object { index: 2 }, &11u32);
    list.add(Object { index: 3 }, &12u32);
    list.clear();
    assert!(list.instances().is_empty());
    list.clear();
    assert!(list.instances().is_empty());
    list.add(Object { index: 4 }, &13u32);
    assert_eq!(objects(&list), vec![(4, 13)]);
}
