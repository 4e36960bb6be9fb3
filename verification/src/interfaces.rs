//! Looking interfaces up by name in a resolved WIT package graph.

use vstd::prelude::*;

verus! {

/// A resolved WIT package graph.
#[verifier::external_type_specification]
#[verifier::external_body]
pub struct ExResolve(wit_parser::Resolve);

/// What a graph knows of an interface's package.
pub enum PackageRef {
    /// The interface has no package.
    Unset,
    /// The interface has one that the graph does not hold.
    Foreign,
    /// The graph holds it. Its version is given as text.
    Held { namespace: Seq<char>, package: Seq<char>, version: Option<Seq<char>> },
}

/// How an interface is named: by its package, and by a name of its own. An
/// inline interface has none.
pub struct InterfaceName {
    pub package: PackageRef,
    pub name: Option<Seq<char>>,
}

/// How each interface of a graph is named, in the order of its arena.
pub uninterp spec fn interfaces(resolve: wit_parser::Resolve) -> Seq<InterfaceName>;

/// Whether the qualified name of an interface can be asked for: it has a
/// package, which is looked up only where the interface has a name of its own.
pub open spec fn identifiable(iface: InterfaceName) -> bool {
    match iface.package {
        PackageRef::Unset => false,
        PackageRef::Foreign => iface.name is None,
        PackageRef::Held { .. } => true,
    }
}

/// The qualified name of an interface: `namespace:package/name`, with
/// `@version` behind it where the package has one.
pub open spec fn qualified(iface: InterfaceName) -> Option<Seq<char>> {
    match (iface.package, iface.name) {
        (PackageRef::Held { namespace, package, version }, Some(name)) => Some(
            namespace + seq![':'] + package + seq!['/'] + name + match version {
                Some(version) => seq!['@'] + version,
                None => Seq::empty(),
            },
        ),
        _ => None,
    }
}

/// `Arena::len` of the graph's interfaces: how many there are.
#[verifier::external_body]
fn interface_count(resolve: &wit_parser::Resolve) -> (n: usize)
    ensures
        n == interfaces(*resolve).len(),
{
    resolve.interfaces.len()
}

/// `Arena::get` for the package of an interface: whether the graph holds it, if
/// the interface has one.
#[verifier::external_body]
fn package_held(resolve: &wit_parser::Resolve, i: usize) -> (held: Option<bool>)
    requires
        i < interfaces(*resolve).len(),
    ensures
        held == match interfaces(*resolve)[i as int].package {
            PackageRef::Unset => None,
            PackageRef::Foreign => Some(false),
            PackageRef::Held { .. } => Some(true),
        },
{
    let (_, iface) = resolve.interfaces.iter().nth(i)?;
    iface.package.map(|id| resolve.packages.get(id).is_some())
}

/// The field `Interface::name`: whether the interface has a name of its own.
#[verifier::external_body]
fn is_named(resolve: &wit_parser::Resolve, i: usize) -> (named: bool)
    requires
        i < interfaces(*resolve).len(),
    ensures
        named == interfaces(*resolve)[i as int].name is Some,
{
    let iface = resolve.interfaces.iter().nth(i);
    iface.and_then(|(_, iface)| iface.name.as_ref()).is_some()
}

/// `Resolve::id_of`: the interface's qualified name. It needs a package, and
/// the graph must hold it where the interface has a name of its own.
#[verifier::external_body]
fn id_of(resolve: &wit_parser::Resolve, i: usize) -> (id: Option<String>)
    requires
        i < interfaces(*resolve).len(),
        identifiable(interfaces(*resolve)[i as int]),
    ensures
        (match id {
            Some(id) => Some(id@),
            None => None,
        }) == qualified(interfaces(*resolve)[i as int]),
{
    let (id, _) = resolve.interfaces.iter().nth(i)?;
    resolve.id_of(id)
}

/// Whether the qualified name of interface `i` can be asked for.
fn can_identify(resolve: &wit_parser::Resolve, i: usize) -> (able: bool)
    requires
        i < interfaces(*resolve).len(),
    ensures
        able == identifiable(interfaces(*resolve)[i as int]),
{
    match package_held(resolve, i) {
        Some(held) => held || !is_named(resolve, i),
        None => false,
    }
}

/// The part of `s` before its first `@`, or all of it.
pub open spec fn before_at(s: Seq<char>) -> Seq<char>
    decreases s.len(),
{
    if s.len() == 0 || s[0] == '@' {
        Seq::empty()
    } else {
        seq![s[0]] + before_at(s.drop_first())
    }
}

/// What stands before the first `@`: everything up to it, or all where there is
/// none.
pub proof fn lemma_before_at(s: Seq<char>, end: int)
    requires
        0 <= end <= s.len(),
        forall|k: int| 0 <= k < end ==> s[k] != '@',
        end < s.len() ==> s[end] == '@',
    ensures
        before_at(s) == s.take(end),
    decreases s.len(),
{
    if end > 0 {
        assert forall|k: int| 0 <= k < end - 1 implies s.drop_first()[k] != '@' by {
            assert(s[k + 1] != '@');
        }
        lemma_before_at(s.drop_first(), end - 1);
        assert(s.take(end) =~= seq![s[0]] + s.drop_first().take(end - 1));
    }
}

/// A qualified name without its version.
pub fn unversioned(qname: &str) -> (name: &str)
    ensures
        name@ == before_at(qname@),
{
    let len = qname.unicode_len();
    let mut end: usize = 0;
    let mut found = false;
    for c in it: qname.chars()
        invariant
            len == qname@.len(),
            it.seq() == qname@,
            end <= it.index(),
            !found ==> end == it.index(),
            forall|k: int| 0 <= k < end ==> #[trigger] qname@[k] != '@',
            found ==> end < qname@.len() && qname@[end as int] == '@',
    {
        if !found {
            if c == '@' {
                found = true;
            } else {
                end += 1;
            }
        }
    }
    proof {
        lemma_before_at(qname@, end as int);
    }
    qname.substring_char(0, end)
}

/// Whether interface `i` is called `qname` once versions are left aside.
pub open spec fn answers_to(resolve: wit_parser::Resolve, qname: Seq<char>, i: int) -> bool {
    match qualified(interfaces(resolve)[i]) {
        Some(id) => before_at(id) == qname,
        None => false,
    }
}

/// Whether `i` is the first interface that is called `qname`, and the names of
/// all before it can be asked for.
pub open spec fn first_called(resolve: wit_parser::Resolve, qname: Seq<char>, i: int) -> bool {
    &&& 0 <= i < interfaces(resolve).len()
    &&& answers_to(resolve, qname, i)
    &&& forall|k: int| #![trigger interfaces(resolve)[k]]
        0 <= k < i ==> identifiable(interfaces(resolve)[k]) && !answers_to(resolve, qname, k)
}

/// Finds an interface by its unversioned qualified name, whatever its version.
/// Returns its index in the arena.
pub fn iface_by_unversioned_qname(resolve: &wit_parser::Resolve, qname: &str) -> (index: usize)
    requires
        exists|i: int| first_called(*resolve, qname@, i),
    ensures
        first_called(*resolve, qname@, index as int),
{
    match find_iface_by_unversioned_qname(resolve, qname) {
        Some(index) => index,
        None => vstd::pervasive::unreached(),
    }
}

/// Like [`iface_by_unversioned_qname`], for graphs that may hold no such
/// interface.
pub fn find_iface_by_unversioned_qname(resolve: &wit_parser::Resolve, qname: &str) -> (index:
    Option<usize>)
    ensures
        (match index {
            Some(i) => first_called(*resolve, qname@, i as int),
            None => forall|i: int| !first_called(*resolve, qname@, i),
        }),
{
    let count = interface_count(resolve);
    let mut i: usize = 0;
    while i < count
        invariant
            count == interfaces(*resolve).len(),
            i <= count,
            forall|k: int| #![trigger interfaces(*resolve)[k]]
                0 <= k < i ==> identifiable(interfaces(*resolve)[k]) && !answers_to(
                    *resolve,
                    qname@,
                    k,
                ),
        decreases count - i,
    {
        if !can_identify(resolve, i) {
            assert(!identifiable(interfaces(*resolve)[i as int]));
            return None;
        }
        if let Some(id) = id_of(resolve, i) {
            if unversioned(id.as_str()).to_owned() == qname.to_owned() {
                return Some(i);
            }
        }
        i += 1;
    }
    None
}

/// The version of a package does not matter: an interface is called by its
/// qualified name without it, as long as no name holds an `@`.
pub proof fn lemma_version_ignored(
    namespace: Seq<char>,
    package: Seq<char>,
    version: Option<Seq<char>>,
    name: Seq<char>,
)
    requires
        !namespace.contains('@'),
        !package.contains('@'),
        !name.contains('@'),
    ensures
        before_at(
            qualified(
                (InterfaceName {
                    package: (PackageRef::Held { namespace, package, version }),
                    name: Some(name),
                }),
            )->0,
        ) == namespace + seq![':'] + package + seq!['/'] + name,
{
    let base = namespace + seq![':'] + package + seq!['/'] + name;
    let held = PackageRef::Held { namespace, package, version };
    let whole = qualified(InterfaceName { package: held, name: Some(name) })->0;
    let end = base.len() as int;
    assert forall|k: int| 0 <= k < end implies whole[k] != '@' by {
        let n = namespace.len();
        let p = package.len();
        assert(whole[k] == base[k]);
        if k < n {
            assert(namespace.contains(namespace[k]));
        } else if n < k < n + 1 + p {
            assert(package.contains(package[k - n - 1]));
        } else if k > n + 1 + p {
            assert(name.contains(name[k - n - p - 2]));
        }
    }
    lemma_before_at(whole, end);
    assert(whole.take(end) =~= base);
}

/// What is found is called by the name asked for, and nothing before it is; so
/// no other index would do.
pub proof fn lemma_first_called(
    resolve: wit_parser::Resolve,
    qname: Seq<char>,
    i: int,
    k: int,
)
    requires
        first_called(resolve, qname, i),
    ensures
        0 <= i < interfaces(resolve).len(),
        qualified(interfaces(resolve)[i]) matches Some(id) && before_at(id) == qname,
        0 <= k < i ==> match qualified(interfaces(resolve)[k]) {
            Some(id) => before_at(id) != qname,
            None => true,
        },
        first_called(resolve, qname, k) ==> k == i,
{
    if 0 <= k < i {
        assert(!answers_to(resolve, qname, k)) by {
            assert(identifiable(interfaces(resolve)[k]));
        }
    }
    if first_called(resolve, qname, k) && i < k {
        assert(identifiable(interfaces(resolve)[i]));
    }
}

/// The first interface of a name is found wherever no interface before it
/// stands in the way.
pub proof fn lemma_found_if_there(
    resolve: wit_parser::Resolve,
    qname: Seq<char>,
    i: int,
)
    requires
        0 <= i < interfaces(resolve).len(),
        qualified(interfaces(resolve)[i]) matches Some(id) && before_at(id) == qname,
        forall|k: int| #![trigger interfaces(resolve)[k]]
            0 <= k < i ==> {
                &&& interfaces(resolve)[k].package is Held || (interfaces(
                    resolve,
                )[k].package is Foreign && interfaces(resolve)[k].name is None)
                &&& qualified(interfaces(resolve)[k]) matches Some(id) ==> before_at(id) != qname
            },
    ensures
        first_called(resolve, qname, i),
{
}

/// A version goes behind the name of an interface, after an `@`.
pub proof fn lemma_version_appended(
    namespace: Seq<char>,
    package: Seq<char>,
    version: Seq<char>,
    name: Seq<char>,
)
    ensures
        ({
            let plain = PackageRef::Held { namespace, package, version: None };
            let held = PackageRef::Held { namespace, package, version: Some(version) };
            qualified(InterfaceName { package: held, name: Some(name) })->0 == qualified(
                (InterfaceName { package: plain, name: Some(name) }),
            )->0 + seq!['@'] + version
        }),
        qualified(
            (InterfaceName {
                package: (PackageRef::Held { namespace, package, version: Some(version) }),
                name: None,
            }),
        ) is None,
{
    let plain = PackageRef::Held { namespace, package, version: None };
    let held = PackageRef::Held { namespace, package, version: Some(version) };
    let a = qualified(InterfaceName { package: held, name: Some(name) })->0;
    let b = qualified(InterfaceName { package: plain, name: Some(name) })->0;
    assert(a =~= b + seq!['@'] + version);
}

} // verus!
