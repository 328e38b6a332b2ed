use wrpc_wasmtime::rpc_func_name;

#[test]
fn annotations_are_stripped() {
    assert_eq!(rpc_func_name("[constructor]blob"), "blob");
    assert_eq!(rpc_func_name("[static]blob.merge"), "blob.merge");
    assert_eq!(rpc_func_name("[method]blob.read"), "blob.read");
}

#[test]
fn other_names_stay() {
    assert_eq!(rpc_func_name("handle"), "handle");
    assert_eq!(rpc_func_name(""), "");
    assert_eq!(rpc_func_name("[async]handle"), "[async]handle");
    assert_eq!(rpc_func_name("x[method]blob.read"), "x[method]blob.read");
}

#[test]
fn only_one_annotation_is_stripped() {
    assert_eq!(rpc_func_name("[method][static]x"), "[static]x");
    assert_eq!(rpc_func_name("[static][method]x"), "[method]x");
}
