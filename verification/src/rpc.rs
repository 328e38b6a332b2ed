//! How RPC shows in the names and types of a component.

use vstd::prelude::*;

use crate::named::{Key, NamedMap};
use crate::types::{HostResource, ResourceType, Type};

verus! {

/// What follows `prefix` in `name`, if `name` begins with it.
pub open spec fn after_prefix(name: Seq<char>, prefix: Seq<char>) -> Option<Seq<char>> {
    if prefix.is_prefix_of(name) {
        Some(name.skip(prefix.len() as int))
    } else {
        None
    }
}

/// `str::strip_prefix` with a string for its pattern: what follows the prefix if
/// the string begins with it, and nothing otherwise.
#[verifier::external_body]
fn strip_prefix<'a>(s: &'a str, prefix: &str) -> (r: Option<&'a str>)
    ensures
        match r {
            Some(t) => after_prefix(s@, prefix@) == Some(t@),
            None => after_prefix(s@, prefix@) is None && r is None,
        },
{
    s.strip_prefix(prefix)
}

/// The name without the annotation of a constructor, a static function or a
/// method in front.
pub open spec fn plain_name(name: Seq<char>) -> Seq<char> {
    match after_prefix(name, "[constructor]"@) {
        Some(rest) => rest,
        None => match after_prefix(name, "[static]"@) {
            Some(rest) => rest,
            None => match after_prefix(name, "[method]"@) {
                Some(rest) => rest,
                None => name,
            },
        },
    }
}

/// The RPC name for the name of a function of a component: the name without the
/// annotation of its kind.
pub fn rpc_func_name(name: &str) -> (r: &str)
    ensures
        r@ == plain_name(name@),
{
    if let Some(name) = strip_prefix(name, "[constructor]") {
        name
    } else if let Some(name) = strip_prefix(name, "[static]") {
        name
    } else if let Some(name) = strip_prefix(name, "[method]") {
        name
    } else {
        name
    }
}

/// The annotation in front of a name is dropped, whichever of the three it is, and
/// only that; a name without one is its own RPC name.
pub proof fn law_annotations_are_dropped(name: Seq<char>)
    ensures
        plain_name("[constructor]"@ + name) == name,
        plain_name("[static]"@ + name) == name,
        plain_name("[method]"@ + name) == name,
        !"[constructor]"@.is_prefix_of(name) && !"[static]"@.is_prefix_of(name)
            && !"[method]"@.is_prefix_of(name) ==> plain_name(name) == name,
{
    reveal_strlit("[constructor]");
    reveal_strlit("[static]");
    reveal_strlit("[method]");
    let (a, b, c) = ("[constructor]"@, "[static]"@, "[method]"@);
    assert(a =~= (a + name).subrange(0, a.len() as int));
    assert(b =~= (b + name).subrange(0, b.len() as int));
    assert(c =~= (c + name).subrange(0, c.len() as int));
    assert((a + name).skip(a.len() as int) =~= name);
    assert((b + name).skip(b.len() as int) =~= name);
    assert((c + name).skip(c.len() as int) =~= name);
    assert((b + name)[1] == 's' && (c + name)[1] == 'm');
    assert(!a.is_prefix_of(b + name)) by {
        if a.is_prefix_of(b + name) {
            assert(a[1] == (b + name).subrange(0, a.len() as int)[1]);
        }
    }
    assert(!a.is_prefix_of(c + name)) by {
        if a.is_prefix_of(c + name) {
            assert(a[1] == (c + name).subrange(0, a.len() as int)[1]);
        }
    }
    assert(!b.is_prefix_of(c + name)) by {
        if b.is_prefix_of(c + name) {
            assert(b[1] == (c + name).subrange(0, b.len() as int)[1]);
        }
    }
}

/// The resource types that the host gives a component, by instance and name: the
/// type that the component knows, and the one that the host does.
pub type HostResources = NamedMap<(ResourceType, ResourceType)>;

/// Where the type of RPC errors is found.
pub open spec fn rpc_error_key() -> Key {
    ("wrpc:rpc/error@0.1.0"@, "error"@)
}

/// The type of the value that a function with these results returns if all goes
/// well, if its one result is a `result` whose error is an RPC error.
pub open spec fn rpc_result(
    host_resources: Map<Key, (ResourceType, ResourceType)>,
    results: Seq<Type>,
) -> Option<Option<Type>> {
    if results.len() == 1 && host_resources.contains_key(rpc_error_key())
        && host_resources[rpc_error_key()].1 == ResourceType::Host(HostResource::Error) {
        match results[0] {
            Type::Result(ok, Some(err)) => if *err == Type::Own(
                host_resources[rpc_error_key()].0,
            ) {
                match ok {
                    Some(ty) => Some(Some(*ty)),
                    None => Some(None),
                }
            } else {
                None
            },
            _ => None,
        }
    } else {
        None
    }
}

/// A function returns an RPC result if and only if it has one result, that result
/// is a `result`, and its error is an owned resource of the type that the component
/// knows the host's RPC errors by. The `ok` type plays no part in that.
pub proof fn law_rpc_results_are_told_by_their_error(
    host_resources: Map<Key, (ResourceType, ResourceType)>,
    results: Seq<Type>,
    guest: ResourceType,
    ok: Option<Box<Type>>,
)
    ensures
        host_resources.contains_pair(
            ("wrpc:rpc/error@0.1.0"@, "error"@),
            (guest, ResourceType::Host(HostResource::Error)),
        ) && results == seq![Type::Result(ok, Some(Box::new(Type::Own(guest))))] ==> rpc_result(
            host_resources,
            results,
        ) == Some(
            match ok {
                Some(ty) => Some(*ty),
                None => None,
            },
        ),
        rpc_result(host_resources, results) is Some ==> {
            &&& host_resources.contains_key(("wrpc:rpc/error@0.1.0"@, "error"@))
            &&& host_resources[("wrpc:rpc/error@0.1.0"@, "error"@)].1 == ResourceType::Host(
                HostResource::Error,
            )
            &&& results.len() == 1
            &&& results[0] matches Type::Result(_, Some(err)) && *err == Type::Own(
                host_resources[("wrpc:rpc/error@0.1.0"@, "error"@)].0,
            )
        },
{
}

/// The type of the value that a function with these results returns if all goes
/// well, if its one result is a `result` whose error is an RPC error.
pub fn rpc_result_type<'a>(host_resources: &HostResources, results_ty: &'a Vec<Type>) -> (r: Option<
    Option<&'a Type>,
>)
    ensures
        match rpc_result(host_resources@, results_ty@) {
            Some(Some(ty)) => r matches Some(Some(t)) && *t == ty,
            Some(None) => r matches Some(None),
            None => r is None,
        },
{
    let (guest, host): (ResourceType, ResourceType) = match host_resources.get(
        "wrpc:rpc/error@0.1.0",
        "error",
    ) {
        Some(types) => *types,
        None => return None,
    };
    if results_ty.len() != 1 || host != ResourceType::Host(HostResource::Error) {
        return None;
    }
    match &results_ty[0] {
        Type::Result(ok, Some(err)) => match &**err {
            Type::Own(ty) => if *ty == guest {
                match ok {
                    Some(ty) => Some(Some(&**ty)),
                    None => Some(None),
                }
            } else {
                None
            },
            _ => None,
        },
        _ => None,
    }
}

} // verus!
