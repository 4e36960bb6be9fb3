use splicer::interfaces::{
    find_iface_by_unversioned_qname, iface_by_unversioned_qname, unversioned,
};
use wit_parser::{InterfaceId, Resolve};

fn resolved(documents: &[&str]) -> Resolve {
    let mut resolve = Resolve::default();
    for document in documents {
        resolve.push_str("test.wit", document).unwrap();
    }
    resolve
}

fn id_at(resolve: &Resolve, index: usize) -> InterfaceId {
    resolve.interfaces.iter().nth(index).unwrap().0
}

#[test]
fn versions_are_cut_off() {
    assert_eq!(unversioned("ns:pkg/api@1.2.3"), "ns:pkg/api");
    assert_eq!(unversioned("ns:pkg/api"), "ns:pkg/api");
    assert_eq!(unversioned("a@b@c"), "a");
    assert_eq!(unversioned("@1"), "");
    assert_eq!(unversioned("é@1"), "é");
    assert_eq!(unversioned(""), "");
}

#[test]
fn interfaces_are_found_whatever_their_version() {
    let resolve = resolved(&[
        "package one:plain; interface a {} interface b {}",
        "package two:versioned@1.2.3; interface c {}",
    ]);
    let b = iface_by_unversioned_qname(&resolve, "one:plain/b");
    assert_eq!(resolve.id_of(id_at(&resolve, b)).as_deref(), Some("one:plain/b"));
    let c = iface_by_unversioned_qname(&resolve, "two:versioned/c");
    assert_eq!(resolve.id_of(id_at(&resolve, c)).as_deref(), Some("two:versioned/c@1.2.3"));
}

#[test]
fn absent_interfaces_are_not_found() {
    let resolve = resolved(&["package two:versioned@1.2.3; interface c {}"]);
    assert_eq!(find_iface_by_unversioned_qname(&resolve, "two:versioned/c"), Some(0));
    assert_eq!(find_iface_by_unversioned_qname(&resolve, "two:versioned/c@1.2.3"), None);
    assert_eq!(find_iface_by_unversioned_qname(&resolve, "two:versioned/d"), None);
    assert_eq!(find_iface_by_unversioned_qname(&Resolve::default(), "a:b/c"), None);
}

#[test]
fn the_first_of_two_versions_is_taken() {
    let resolve = resolved(&[
        "package p:q@1.0.0; interface x {}",
        "package p:q@2.0.0; interface y {} interface x {}",
    ]);
    assert_eq!(find_iface_by_unversioned_qname(&resolve, "p:q/x"), Some(0));
}

#[test]
fn unnamed_interfaces_are_passed_over() {
    let resolve = resolved(&[
        "package p:q; world w { import inline: interface { f: func(); } import z; } interface z {}",
    ]);
    assert_eq!(resolve.interfaces.len(), 2);
    let z = iface_by_unversioned_qname(&resolve, "p:q/z");
    assert_eq!(resolve.interfaces[id_at(&resolve, z)].name.as_deref(), Some("z"));
}

#[test]
fn an_unnamed_interface_is_passed_over_wherever_its_package_is() {
    let mut resolve = resolved(&[
        "package p:inline; world w { import inline: interface { f: func(); } }",
        "package p:q; interface z {}",
    ]);
    let other = resolved(&["package o:ther; interface a {}"]);
    let unnamed = id_at(&resolve, 0);
    assert_eq!(resolve.interfaces[unnamed].name, None);
    resolve.interfaces[unnamed].package = other.packages.iter().next().map(|(id, _)| id);
    assert_eq!(resolve.id_of(unnamed), None);
    assert_eq!(find_iface_by_unversioned_qname(&resolve, "p:q/z"), Some(1));
    assert_eq!(iface_by_unversioned_qname(&resolve, "p:q/z"), 1);
    // Without any package it ends the search.
    resolve.interfaces[unnamed].package = None;
    assert_eq!(find_iface_by_unversioned_qname(&resolve, "p:q/z"), None);
}

#[test]
fn the_search_ends_at_a_named_interface_without_its_package() {
    let mut resolve = resolved(&["package p:q; interface a {} interface b {}"]);
    let other = resolved(&["package o:ther; interface a {}"]);
    assert_eq!(find_iface_by_unversioned_qname(&resolve, "p:q/b"), Some(1));
    let first = id_at(&resolve, 0);
    resolve.interfaces[first].package = other.packages.iter().next().map(|(id, _)| id);
    assert_eq!(find_iface_by_unversioned_qname(&resolve, "p:q/b"), None);
    resolve.interfaces[first].package = None;
    assert_eq!(find_iface_by_unversioned_qname(&resolve, "p:q/b"), None);
}
