//! The resource types among the imports and exports of a component.

use vstd::prelude::*;

use crate::named::{Key, NamedMap};
use crate::types::ResourceType;

verus! {

/// Something that a component or an instance imports or exports, by its name.
#[derive(Debug)]
pub struct ComponentExtern {
    pub name: String,
    pub ty: ComponentItem,
}

/// The type of a component.
#[derive(Debug)]
pub struct Component {
    pub imports: Vec<ComponentExtern>,
    pub exports: Vec<ComponentExtern>,
}

/// The type of an instance of a component.
#[derive(Debug)]
pub struct ComponentInstance {
    pub exports: Vec<ComponentExtern>,
}

/// The type of something that is imported or exported.
#[derive(Debug)]
pub enum ComponentItem {
    ComponentFunc,
    CoreFunc,
    Module,
    Component(Component),
    ComponentInstance(ComponentInstance),
    Type,
    Resource(ResourceType),
}

/// The resource types that an item exports, at whatever depth, in order.
pub open spec fn item_exports(item: ComponentItem) -> Seq<ResourceType>
    decreases item, 0nat,
{
    match item {
        ComponentItem::ComponentFunc
        | ComponentItem::CoreFunc
        | ComponentItem::Module
        | ComponentItem::Type => seq![],
        ComponentItem::Component(ty) => exports_of(ty.exports@, ty.exports@.len()),
        ComponentItem::ComponentInstance(ty) => exports_of(ty.exports@, ty.exports@.len()),
        ComponentItem::Resource(ty) => seq![ty],
    }
}

/// The resource types that the first `n` of these export, in order.
pub open spec fn exports_of(externs: Seq<ComponentExtern>, n: nat) -> Seq<ResourceType>
    decreases externs, n,
{
    if n == 0 || n > externs.len() {
        seq![]
    } else {
        exports_of(externs, (n - 1) as nat) + item_exports(externs[n - 1].ty)
    }
}

/// Recursively iterates the component item type and collects all exported
/// resource types.
pub fn collect_item_resource_exports(ty: &ComponentItem, resources: &mut Vec<ResourceType>)
    ensures
        final(resources)@ == old(resources)@ + item_exports(*ty),
    decreases ty, 0nat,
{
    match ty {
        ComponentItem::ComponentFunc
        | ComponentItem::CoreFunc
        | ComponentItem::Module
        | ComponentItem::Type => {
            assert(resources@ + Seq::<ResourceType>::empty() =~= resources@);
        },
        ComponentItem::Component(ty) => collect_component_resource_exports(ty, resources),
        ComponentItem::ComponentInstance(ty) => collect_instance_resource_exports(ty, resources),
        ComponentItem::Resource(ty) => {
            resources.push(*ty);
            assert(resources@ =~= old(resources)@ + seq![*ty]);
        },
    }
}

/// Recursively iterates the instance type and collects all exported resource
/// types.
pub fn collect_instance_resource_exports(ty: &ComponentInstance, resources: &mut Vec<ResourceType>)
    ensures
        final(resources)@ == old(resources)@ + exports_of(ty.exports@, ty.exports@.len()),
    decreases ty, 0nat,
{
    collect_exports(&ty.exports, resources);
}

/// Recursively iterates the component type and collects all exported resource
/// types.
pub fn collect_component_resource_exports(ty: &Component, resources: &mut Vec<ResourceType>)
    ensures
        final(resources)@ == old(resources)@ + exports_of(ty.exports@, ty.exports@.len()),
    decreases ty, 0nat,
{
    collect_exports(&ty.exports, resources);
}

/// Collect the resource types that all of these export.
fn collect_exports(externs: &Vec<ComponentExtern>, resources: &mut Vec<ResourceType>)
    ensures
        final(resources)@ == old(resources)@ + exports_of(externs@, externs@.len()),
    decreases externs, 0nat,
{
    let ghost before = resources@;
    assert(before + Seq::<ResourceType>::empty() =~= before);
    for i in 0..externs.len()
        invariant
            before == old(resources)@,
            resources@ == before + exports_of(externs@, i as nat),
    {
        collect_item_resource_exports(&externs[i].ty, resources);
        assert(before + exports_of(externs@, (i + 1) as nat) =~= before + exports_of(
            externs@,
            i as nat,
        ) + item_exports(externs@[i as int].ty));
    }
}

/// `resources` with the resource types that the first `n` of these, exported by
/// `instance`, are. Resource types that are within something else are not
/// counted; of two with one name the later one stays.
pub open spec fn with_instance_imports(
    resources: Map<Key, ResourceType>,
    instance: Seq<char>,
    externs: Seq<ComponentExtern>,
    n: nat,
) -> Map<Key, ResourceType>
    decreases n,
{
    if n == 0 || n > externs.len() {
        resources
    } else {
        let before = with_instance_imports(resources, instance, externs, (n - 1) as nat);
        match externs[n - 1].ty {
            ComponentItem::Resource(ty) => before.insert((instance, externs[n - 1].name@), ty),
            _ => before,
        }
    }
}

/// `resources` with the resource types that the first `n` of these imports are
/// or, if they are instances, export. Those that are no part of an instance go
/// under the empty name.
pub open spec fn with_imports(
    resources: Map<Key, ResourceType>,
    imports: Seq<ComponentExtern>,
    n: nat,
) -> Map<Key, ResourceType>
    decreases n,
{
    if n == 0 || n > imports.len() {
        resources
    } else {
        let before = with_imports(resources, imports, (n - 1) as nat);
        let import = imports[n - 1];
        match import.ty {
            ComponentItem::ComponentInstance(ty) => with_instance_imports(
                before,
                import.name@,
                ty.exports@,
                ty.exports@.len(),
            ),
            ComponentItem::Resource(ty) => before.insert((""@, import.name@), ty),
            _ => before,
        }
    }
}

/// Iterates the component type and collects all imported resource types.
pub fn collect_component_resource_imports(
    ty: &Component,
    resources: &mut NamedMap<ResourceType>,
)
    ensures
        final(resources)@ == with_imports(old(resources)@, ty.imports@, ty.imports@.len()),
{
    let ghost before = resources@;
    for i in 0..ty.imports.len()
        invariant
            before == old(resources)@,
            resources@ == with_imports(before, ty.imports@, i as nat),
    {
        let import: &ComponentExtern = &ty.imports[i];
        match &import.ty {
            ComponentItem::ComponentFunc
            | ComponentItem::CoreFunc
            | ComponentItem::Module
            | ComponentItem::Type
            | ComponentItem::Component(_) => {},
            ComponentItem::ComponentInstance(ty) => {
                collect_instance_imports(&import.name, &ty.exports, resources);
            },
            ComponentItem::Resource(ty) => {
                resources.insert("".to_owned(), import.name.clone(), *ty);
            },
        }
    }
}

/// Collect the resource types among what an imported instance exports.
fn collect_instance_imports(
    instance: &String,
    exports: &Vec<ComponentExtern>,
    resources: &mut NamedMap<ResourceType>,
)
    ensures
        final(resources)@ == with_instance_imports(
            old(resources)@,
            instance@,
            exports@,
            exports@.len(),
        ),
{
    let ghost before = resources@;
    for i in 0..exports.len()
        invariant
            before == old(resources)@,
            resources@ == with_instance_imports(before, instance@, exports@, i as nat),
    {
        if let ComponentItem::Resource(ty) = &exports[i].ty {
            resources.insert(instance.clone(), exports[i].name.clone(), *ty);
        }
    }
}

/// Whether the item is the resource type, or exports it at whatever depth.
pub open spec fn exports_resource(item: ComponentItem, resource: ResourceType) -> bool
    decreases item, 0nat,
{
    match item {
        ComponentItem::Component(ty) => some_exports_resource(ty.exports@, resource),
        ComponentItem::ComponentInstance(ty) => some_exports_resource(ty.exports@, resource),
        ComponentItem::Resource(ty) => ty == resource,
        _ => false,
    }
}

/// Whether one of these is the resource type, or exports it at whatever depth.
pub open spec fn some_exports_resource(
    externs: Seq<ComponentExtern>,
    resource: ResourceType,
) -> bool
    decreases externs, 0nat,
{
    exists|i: int|
        0 <= i < externs.len() && exports_resource((#[trigger] externs[i]).ty, resource)
}

/// The resource types that are collected from an item are all those that it
/// exports, and no others.
pub proof fn law_all_exports_are_collected(item: ComponentItem, resource: ResourceType)
    ensures
        item_exports(item).contains(resource) <==> exports_resource(item, resource),
    decreases item, 0nat,
{
    match item {
        ComponentItem::Component(ty) => {
            lemma_exports_collected(ty.exports@, resource, ty.exports@.len());
        },
        ComponentItem::ComponentInstance(ty) => {
            lemma_exports_collected(ty.exports@, resource, ty.exports@.len());
        },
        ComponentItem::Resource(ty) => {
            assert(seq![ty][0] == ty);
        },
        _ => {},
    }
}

/// What the first `n` of these export is all collected.
proof fn lemma_exports_collected(externs: Seq<ComponentExtern>, resource: ResourceType, n: nat)
    requires
        n <= externs.len(),
    ensures
        exports_of(externs, n).contains(resource) <==> exists|i: int|
            0 <= i < n && exports_resource((#[trigger] externs[i]).ty, resource),
    decreases externs, n,
{
    if n > 0 {
        let front = exports_of(externs, (n - 1) as nat);
        let last = item_exports(externs[n - 1].ty);
        lemma_exports_collected(externs, resource, (n - 1) as nat);
        law_all_exports_are_collected(externs[n - 1].ty, resource);
        if front.contains(resource) {
            let i = choose|i: int| 0 <= i < front.len() && front[i] == resource;
            assert((front + last)[i] == resource);
        }
        if last.contains(resource) {
            let i = choose|i: int| 0 <= i < last.len() && last[i] == resource;
            assert((front + last)[front.len() + i] == resource);
        }
        if (front + last).contains(resource) {
            let i = choose|i: int|
                0 <= i < (front + last).len() && (front + last)[i] == resource;
            if i < front.len() {
                assert(front[i] == resource);
            } else {
                assert(last[i - front.len()] == resource);
            }
        }
    }
}

/// Whether one of the first `n` of these is a resource type of that name.
pub open spec fn names_resource(
    externs: Seq<ComponentExtern>,
    name: Seq<char>,
    n: nat,
) -> bool {
    exists|i: int|
        0 <= i < n && (#[trigger] externs[i]).ty is Resource && externs[i].name@ == name
}

/// Whether the first `n` of the imports have a resource type of that name in an
/// instance of that name; or, under the empty name, outside of one.
pub open spec fn imports_resource(imports: Seq<ComponentExtern>, key: Key, n: nat) -> bool {
    exists|i: int|
        0 <= i < n && match (#[trigger] imports[i]).ty {
            ComponentItem::ComponentInstance(ty) => imports[i].name@ == key.0 && names_resource(
                ty.exports@,
                key.1,
                ty.exports@.len(),
            ),
            ComponentItem::Resource(_) => key.0 == ""@ && imports[i].name@ == key.1,
            _ => false,
        }
}

/// Whether one of the first `n` of these is that resource type, of that name.
pub open spec fn names_as(
    externs: Seq<ComponentExtern>,
    name: Seq<char>,
    ty: ResourceType,
    n: nat,
) -> bool {
    exists|i: int|
        0 <= i < n && (#[trigger] externs[i]).ty == ComponentItem::Resource(ty)
            && externs[i].name@ == name
}

/// Whether the first `n` of the imports have that resource type under that name in
/// an instance of that name; or, under the empty name, outside of one.
pub open spec fn imports_as(
    imports: Seq<ComponentExtern>,
    key: Key,
    ty: ResourceType,
    n: nat,
) -> bool {
    exists|i: int|
        0 <= i < n && match (#[trigger] imports[i]).ty {
            ComponentItem::ComponentInstance(instance) => imports[i].name@ == key.0 && names_as(
                instance.exports@,
                key.1,
                ty,
                instance.exports@.len(),
            ),
            ComponentItem::Resource(resource) => key.0 == ""@ && imports[i].name@ == key.1
                && resource == ty,
            _ => false,
        }
}

/// What is known after the imports of a component were collected is what was
/// known before and all that it imports, and nothing else. What stands under a
/// name that it imports is a resource type that it imports under that name; so
/// where names are not used twice, each imported resource type stands under its
/// own.
pub proof fn law_all_imports_are_collected(
    resources: Map<Key, ResourceType>,
    imports: Seq<ComponentExtern>,
    key: Key,
    ty: ResourceType,
)
    ensures
        with_imports(resources, imports, imports.len()).contains_key(key) <==> (
        resources.contains_key(key) || imports_resource(imports, key, imports.len())),
        !imports_resource(imports, key, imports.len()) && resources.contains_key(key)
            ==> with_imports(resources, imports, imports.len())[key] == resources[key],
        imports_resource(imports, key, imports.len()) ==> imports_as(
            imports,
            key,
            with_imports(resources, imports, imports.len())[key],
            imports.len(),
        ),
        imports_as(imports, key, ty, imports.len()) && (forall|other: ResourceType|
            imports_as(imports, key, other, imports.len()) ==> other == ty) ==> with_imports(
            resources,
            imports,
            imports.len(),
        ).contains_pair(key, ty),
{
    let n = imports.len();
    lemma_imports_collected(resources, imports, key, n);
    if imports_as(imports, key, ty, n) {
        let i = choose|i: int|
            0 <= i < n && match (#[trigger] imports[i]).ty {
                ComponentItem::ComponentInstance(instance) => imports[i].name@ == key.0
                    && names_as(instance.exports@, key.1, ty, instance.exports@.len()),
                ComponentItem::Resource(resource) => key.0 == ""@ && imports[i].name@ == key.1
                    && resource == ty,
                _ => false,
            };
        if let ComponentItem::ComponentInstance(instance) = imports[i].ty {
            let exports = instance.exports@;
            let k = choose|k: int|
                0 <= k < exports.len() && (#[trigger] exports[k]).ty == ComponentItem::Resource(ty)
                    && exports[k].name@ == key.1;
            assert(exports[k].ty is Resource);
            assert(names_resource(exports, key.1, exports.len()));
        }
        assert(imports_resource(imports, key, n));
    }
}

/// What the first `n` of the imports are is all collected.
proof fn lemma_imports_collected(
    resources: Map<Key, ResourceType>,
    imports: Seq<ComponentExtern>,
    key: Key,
    n: nat,
)
    requires
        n <= imports.len(),
    ensures
        with_imports(resources, imports, n).contains_key(key) <==> (resources.contains_key(key)
            || imports_resource(imports, key, n)),
        !imports_resource(imports, key, n) && resources.contains_key(key) ==> with_imports(
            resources,
            imports,
            n,
        )[key] == resources[key],
        imports_resource(imports, key, n) ==> imports_as(
            imports,
            key,
            with_imports(resources, imports, n)[key],
            n,
        ),
    decreases n,
{
    if n > 0 {
        let m = (n - 1) as nat;
        lemma_imports_collected(resources, imports, key, m);
        let before = with_imports(resources, imports, m);
        let last = imports[n - 1];
        if let ComponentItem::ComponentInstance(ty) = last.ty {
            lemma_instance_collected(before, last.name@, ty.exports@, key, ty.exports@.len());
        }
        if imports_resource(imports, key, n) {
            let i = choose|i: int|
                0 <= i < n && match (#[trigger] imports[i]).ty {
                    ComponentItem::ComponentInstance(ty) => imports[i].name@ == key.0
                        && names_resource(ty.exports@, key.1, ty.exports@.len()),
                    ComponentItem::Resource(_) => key.0 == ""@ && imports[i].name@ == key.1,
                    _ => false,
                };
            if i < m {
                assert(imports_resource(imports, key, m));
            }
        }
        if imports_resource(imports, key, m) {
            assert(imports_resource(imports, key, n));
            let ty = before[key];
            let i = choose|i: int|
                0 <= i < m && match (#[trigger] imports[i]).ty {
                    ComponentItem::ComponentInstance(instance) => imports[i].name@ == key.0
                        && names_as(instance.exports@, key.1, ty, instance.exports@.len()),
                    ComponentItem::Resource(resource) => key.0 == ""@ && imports[i].name@ == key.1
                        && resource == ty,
                    _ => false,
                };
            assert(imports_as(imports, key, ty, n));
        }
    }
}

/// The resource types among the first `n` of these are all collected.
proof fn lemma_instance_collected(
    resources: Map<Key, ResourceType>,
    instance: Seq<char>,
    externs: Seq<ComponentExtern>,
    key: Key,
    n: nat,
)
    requires
        n <= externs.len(),
    ensures
        with_instance_imports(resources, instance, externs, n).contains_key(key) <==> (
        resources.contains_key(key) || (instance == key.0 && names_resource(externs, key.1, n))),
        !(instance == key.0 && names_resource(externs, key.1, n)) && resources.contains_key(key)
            ==> with_instance_imports(resources, instance, externs, n)[key] == resources[key],
        instance == key.0 && names_resource(externs, key.1, n) ==> names_as(
            externs,
            key.1,
            with_instance_imports(resources, instance, externs, n)[key],
            n,
        ),
    decreases n,
{
    if n > 0 {
        let m = (n - 1) as nat;
        lemma_instance_collected(resources, instance, externs, key, m);
        if names_resource(externs, key.1, n) {
            let i = choose|i: int|
                0 <= i < n && (#[trigger] externs[i]).ty is Resource && externs[i].name@ == key.1;
            if i < m {
                assert(names_resource(externs, key.1, m));
            }
        }
        if names_resource(externs, key.1, m) {
            assert(names_resource(externs, key.1, n));
            if instance == key.0 {
                let ty = with_instance_imports(resources, instance, externs, m)[key];
                let i = choose|i: int|
                    0 <= i < m && (#[trigger] externs[i]).ty == ComponentItem::Resource(ty)
                        && externs[i].name@ == key.1;
                assert(externs[i].ty == ComponentItem::Resource(ty));
                assert(names_as(externs, key.1, ty, n));
            }
        }
        let last = externs[n - 1];
        if let ComponentItem::Resource(ty) = last.ty {
            if last.name@ == key.1 {
                assert(externs[n - 1].ty == ComponentItem::Resource(ty));
                assert(names_as(externs, key.1, ty, n));
            }
        }
    }
}

/// What a component or an instance exports is collected in the order in which it
/// is exported, one thing after the other, each as often as it is exported; and a
/// resource type is collected as itself.
pub proof fn law_exports_are_collected_in_order(
    component: Component,
    instance: ComponentInstance,
    ty: ResourceType,
)
    ensures
        item_exports(ComponentItem::Resource(ty)) == seq![ty],
        item_exports(ComponentItem::Component(component)) == component.exports@.map_values(
            |e: ComponentExtern| item_exports(e.ty),
        ).flatten_alt(),
        item_exports(ComponentItem::ComponentInstance(instance)) == instance.exports@.map_values(
            |e: ComponentExtern| item_exports(e.ty),
        ).flatten_alt(),
{
    lemma_in_order(component.exports@, component.exports@.len());
    lemma_in_order(instance.exports@, instance.exports@.len());
    assert(component.exports@.take(component.exports@.len() as int) =~= component.exports@);
    assert(instance.exports@.take(instance.exports@.len() as int) =~= instance.exports@);
}

/// The first `n` of these are collected in order.
proof fn lemma_in_order(externs: Seq<ComponentExtern>, n: nat)
    requires
        n <= externs.len(),
    ensures
        exports_of(externs, n) == externs.take(n as int).map_values(
            |e: ComponentExtern| item_exports(e.ty),
        ).flatten_alt(),
    decreases n,
{
    let f = |e: ComponentExtern| item_exports(e.ty);
    if n > 0 {
        lemma_in_order(externs, (n - 1) as nat);
        assert(externs.take(n as int).map_values(f).drop_last() =~= externs.take(
            n - 1,
        ).map_values(f));
    }
}

/// Of two resource types that are imported under the same names the later one
/// stays, and the last import is never lost.
pub proof fn law_later_imports_win(
    resources: Map<Key, ResourceType>,
    imports: Seq<ComponentExtern>,
    last: ComponentExtern,
    key: Key,
)
    ensures
        ({
            let before = with_imports(resources, imports, imports.len());
            let after = with_imports(resources, imports.push(last), imports.len() + 1);
            match last.ty {
                ComponentItem::Resource(ty) => after == before.insert((""@, last.name@), ty),
                ComponentItem::ComponentInstance(instance) => forall|i: int|
                    0 <= i < instance.exports@.len() && (#[trigger] instance.exports@[i]).ty
                        is Resource && (forall|j: int|
                        i < j < instance.exports@.len() ==> !((
                        #[trigger] instance.exports@[j]).ty is Resource
                            && instance.exports@[j].name@ == instance.exports@[i].name@))
                        ==> after.contains_pair(
                        (last.name@, instance.exports@[i].name@),
                        instance.exports@[i].ty->Resource_0,
                    ),
                _ => after == before,
            }
        }),
{
    lemma_imports_prefix(resources, imports, last, imports.len());
    let before = with_imports(resources, imports, imports.len());
    if let ComponentItem::ComponentInstance(instance) = last.ty {
        let exports = instance.exports@;
        assert forall|i: int|
            0 <= i < exports.len() && (#[trigger] exports[i]).ty is Resource && (forall|j: int|
                i < j < exports.len() ==> !((#[trigger] exports[j]).ty is Resource
                    && exports[j].name@ == exports[i].name@)) implies with_instance_imports(
            before,
            last.name@,
            exports,
            exports.len(),
        ).contains_pair((last.name@, exports[i].name@), exports[i].ty->Resource_0) by {
            lemma_last_export(before, last.name@, exports, i, exports.len());
        }
    }
}

/// The imports before do not depend on those that follow.
proof fn lemma_imports_prefix(
    resources: Map<Key, ResourceType>,
    imports: Seq<ComponentExtern>,
    last: ComponentExtern,
    n: nat,
)
    requires
        n <= imports.len(),
    ensures
        with_imports(resources, imports.push(last), n) == with_imports(resources, imports, n),
    decreases n,
{
    if n > 0 {
        lemma_imports_prefix(resources, imports, last, (n - 1) as nat);
    }
}

/// An export that no later one has the name of stays.
proof fn lemma_last_export(
    resources: Map<Key, ResourceType>,
    instance: Seq<char>,
    externs: Seq<ComponentExtern>,
    i: int,
    n: nat,
)
    requires
        0 <= i < n <= externs.len(),
        externs[i].ty is Resource,
        forall|j: int|
            i < j < externs.len() ==> !((#[trigger] externs[j]).ty is Resource
                && externs[j].name@ == externs[i].name@),
    ensures
        with_instance_imports(resources, instance, externs, n).contains_pair(
            (instance, externs[i].name@),
            externs[i].ty->Resource_0,
        ),
    decreases n,
{
    if i < n - 1 {
        lemma_last_export(resources, instance, externs, i, (n - 1) as nat);
        assert(!(externs[n - 1].ty is Resource && externs[n - 1].name@ == externs[i].name@));
    }
}

} // verus!
