use hash_ring::label::virtual_node_form;

#[test]
fn label_is_name_hyphen_index() {
    assert_eq!(virtual_node_form("node3", 0), "node3-0");
    assert_eq!(virtual_node_form("node3", 17), "node3-17");
    assert_eq!(virtual_node_form("", 4294967295), "-4294967295");
}
