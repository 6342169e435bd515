//! The keys and type names that the join reads and writes, as bytes.
#![allow(non_snake_case)]

use vstd::prelude::*;

verus! {

/// The key `Type`, under which an entry set names its role.
pub open spec fn TYPE() -> Seq<u8> {
    seq!['T' as u8, 'y' as u8, 'p' as u8, 'e' as u8]
}

/// The key `Parent`: a page's reference back to its page collection.
pub open spec fn PARENT() -> Seq<u8> {
    seq!['P' as u8, 'a' as u8, 'r' as u8, 'e' as u8, 'n' as u8, 't' as u8]
}

/// The key `Count`: the number of pages below a page collection.
pub open spec fn COUNT() -> Seq<u8> {
    seq!['C' as u8, 'o' as u8, 'u' as u8, 'n' as u8, 't' as u8]
}

/// The key `Kids`: the list of children of a page collection.
pub open spec fn KIDS() -> Seq<u8> {
    seq!['K' as u8, 'i' as u8, 'd' as u8, 's' as u8]
}

/// `Pages`: the root's key for its page collection, and the type name of a
/// page collection.
pub open spec fn PAGES() -> Seq<u8> {
    seq!['P' as u8, 'a' as u8, 'g' as u8, 'e' as u8, 's' as u8]
}

/// `Outlines`: the root's key for its outline, and the type name of an
/// outline's root.
pub open spec fn OUTLINES() -> Seq<u8> {
    seq![
        'O' as u8,
        'u' as u8,
        't' as u8,
        'l' as u8,
        'i' as u8,
        'n' as u8,
        'e' as u8,
        's' as u8,
    ]
}

/// The trailer's key `Root`.
pub open spec fn ROOT() -> Seq<u8> {
    seq!['R' as u8, 'o' as u8, 'o' as u8, 't' as u8]
}

/// The type name `Catalog` of a root.
pub open spec fn CATALOG() -> Seq<u8> {
    seq!['C' as u8, 'a' as u8, 't' as u8, 'a' as u8, 'l' as u8, 'o' as u8, 'g' as u8]
}

/// The type name `Page`.
pub open spec fn PAGE() -> Seq<u8> {
    seq!['P' as u8, 'a' as u8, 'g' as u8, 'e' as u8]
}

/// The type name `Outline` of an outline's entry.
pub open spec fn OUTLINE() -> Seq<u8> {
    seq!['O' as u8, 'u' as u8, 't' as u8, 'l' as u8, 'i' as u8, 'n' as u8, 'e' as u8]
}

/// The bytes of `Parent`.
pub(crate) fn parent() -> (k: Vec<u8>)
    ensures
        k@ == PARENT(),
{
    let k = vec!['P' as u8, 'a' as u8, 'r' as u8, 'e' as u8, 'n' as u8, 't' as u8];
    assert(k@ =~= PARENT());
    k
}

/// The bytes of `Count`.
pub(crate) fn count() -> (k: Vec<u8>)
    ensures
        k@ == COUNT(),
{
    let k = vec!['C' as u8, 'o' as u8, 'u' as u8, 'n' as u8, 't' as u8];
    assert(k@ =~= COUNT());
    k
}

/// The bytes of `Kids`.
pub(crate) fn kids() -> (k: Vec<u8>)
    ensures
        k@ == KIDS(),
{
    let k = vec!['K' as u8, 'i' as u8, 'd' as u8, 's' as u8];
    assert(k@ =~= KIDS());
    k
}

/// The bytes of `Pages`.
pub(crate) fn pages() -> (k: Vec<u8>)
    ensures
        k@ == PAGES(),
{
    let k = vec!['P' as u8, 'a' as u8, 'g' as u8, 'e' as u8, 's' as u8];
    assert(k@ =~= PAGES());
    k
}

/// The bytes of `Outlines`.
pub(crate) fn outlines() -> (k: Vec<u8>)
    ensures
        k@ == OUTLINES(),
{
    let k = vec![
        'O' as u8,
        'u' as u8,
        't' as u8,
        'l' as u8,
        'i' as u8,
        'n' as u8,
        'e' as u8,
        's' as u8,
    ];
    assert(k@ =~= OUTLINES());
    k
}

/// The bytes of `Root`.
pub(crate) fn root() -> (k: Vec<u8>)
    ensures
        k@ == ROOT(),
{
    let k = vec!['R' as u8, 'o' as u8, 'o' as u8, 't' as u8];
    assert(k@ =~= ROOT());
    k
}

/// The bytes of `Catalog`.
pub(crate) fn catalog() -> (k: Vec<u8>)
    ensures
        k@ == CATALOG(),
{
    let k = vec!['C' as u8, 'a' as u8, 't' as u8, 'a' as u8, 'l' as u8, 'o' as u8, 'g' as u8];
    assert(k@ =~= CATALOG());
    k
}

/// The bytes of `Page`.
pub(crate) fn page() -> (k: Vec<u8>)
    ensures
        k@ == PAGE(),
{
    let k = vec!['P' as u8, 'a' as u8, 'g' as u8, 'e' as u8];
    assert(k@ =~= PAGE());
    k
}

/// The bytes of `Outline`.
pub(crate) fn outline() -> (k: Vec<u8>)
    ensures
        k@ == OUTLINE(),
{
    let k = vec!['O' as u8, 'u' as u8, 't' as u8, 'l' as u8, 'i' as u8, 'n' as u8, 'e' as u8];
    assert(k@ =~= OUTLINE());
    k
}

} // verus!
