use wrpc_wasmtime::items::{Component, ComponentExtern, ComponentInstance, ComponentItem};
use wrpc_wasmtime::named::NamedMap;
use wrpc_wasmtime::types::ResourceType;
use wrpc_wasmtime::{
    collect_component_resource_exports, collect_component_resource_imports,
    collect_instance_resource_exports, collect_item_resource_exports,
};

fn at(name: &str, ty: ComponentItem) -> ComponentExtern {
    ComponentExtern {
        name: name.to_string(),
        ty,
    }
}

fn resource(n: u64) -> ComponentItem {
    ComponentItem::Resource(ResourceType::Defined(n))
}

fn instance(exports: Vec<ComponentExtern>) -> ComponentItem {
    ComponentItem::ComponentInstance(ComponentInstance { exports })
}

#[test]
fn exports_are_collected_at_every_depth() {
    let inner = Component {
        imports: vec![at("i", resource(9))],
        exports: vec![at("r", resource(3)), at("f", ComponentItem::CoreFunc)],
    };
    let component = Component {
        imports: vec![at("x", resource(8))],
        exports: vec![
            at("a", resource(1)),
            at("f", ComponentItem::ComponentFunc),
            at(
                "b",
                instance(vec![
                    at("r", resource(2)),
                    at("c", ComponentItem::Component(inner)),
                    at("m", ComponentItem::Module),
                    at("t", ComponentItem::Type),
                ]),
            ),
            at("d", resource(1)),
        ],
    };
    let mut found = vec![ResourceType::Defined(0)];
    collect_component_resource_exports(&component, &mut found);
    assert_eq!(
        found,
        vec![
            ResourceType::Defined(0),
            ResourceType::Defined(1),
            ResourceType::Defined(2),
            ResourceType::Defined(3),
            ResourceType::Defined(1),
        ]
    );
}

#[test]
fn items_and_instances_export_too() {
    let mut found = vec![];
    collect_item_resource_exports(&resource(4), &mut found);
    collect_item_resource_exports(&ComponentItem::Type, &mut found);
    let ty = ComponentInstance {
        exports: vec![at("r", resource(5))],
    };
    collect_instance_resource_exports(&ty, &mut found);
    assert_eq!(
        found,
        vec![ResourceType::Defined(4), ResourceType::Defined(5)]
    );
}

#[test]
fn imports_are_collected_by_instance_and_name() {
    let component = Component {
        imports: vec![
            at("alone", resource(1)),
            at(
                "wasi:io/streams",
                instance(vec![
                    at("input-stream", resource(2)),
                    at("output-stream", resource(3)),
                    at("nested", instance(vec![at("r", resource(7))])),
                    at("f", ComponentItem::ComponentFunc),
                ]),
            ),
            at("f", ComponentItem::ComponentFunc),
            at("wasi:io/streams", instance(vec![at("input-stream", resource(4))])),
        ],
        exports: vec![at("out", resource(9))],
    };
    let mut found = NamedMap::new();
    found.insert(
        "kept".to_string(),
        "r".to_string(),
        ResourceType::Defined(6),
    );
    collect_component_resource_imports(&component, &mut found);
    assert_eq!(found.get("", "alone"), Some(&ResourceType::Defined(1)));
    assert_eq!(
        found.get("wasi:io/streams", "input-stream"),
        Some(&ResourceType::Defined(4))
    );
    assert_eq!(
        found.get("wasi:io/streams", "output-stream"),
        Some(&ResourceType::Defined(3))
    );
    assert_eq!(found.get("kept", "r"), Some(&ResourceType::Defined(6)));
    assert_eq!(found.get("nested", "r"), None);
    assert_eq!(found.get("wasi:io/streams", "r"), None);
    assert_eq!(found.get("", "out"), None);
}

#[test]
fn later_entries_take_the_place_of_earlier_ones() {
    let mut map = NamedMap::new();
    map.insert("a".to_string(), "x".to_string(), 1);
    map.insert("b".to_string(), "x".to_string(), 2);
    map.insert("a".to_string(), "x".to_string(), 3);
    assert_eq!(map.get("a", "x"), Some(&3));
    assert_eq!(map.get("b", "x"), Some(&2));
    assert_eq!(map.get("a", "y"), None);
}

#[test]
fn entries_come_out_once_each() {
    let mut map = NamedMap::new();
    map.insert("a".to_string(), "x".to_string(), 1);
    map.insert("b".to_string(), "x".to_string(), 2);
    map.insert("a".to_string(), "x".to_string(), 3);
    let mut entries = map.into_entries();
    entries.sort();
    assert_eq!(
        entries,
        vec![
            ("a".to_string(), "x".to_string(), 3),
            ("b".to_string(), "x".to_string(), 2),
        ]
    );
}
