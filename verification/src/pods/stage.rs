//! Stage roles: the work's heart, its neighbors, its memory.

use vstd::prelude::*;
use crate::sorting::{lemma_sorted_texts_permutation, sort_strings, sorted_texts, views};
use crate::text::{join_texts, join_with};

verus! {

/// A display world, by its screen geometry.
#[derive(Debug, Clone, PartialEq, Eq, PartialOrd, Ord, Hash)]
pub struct DisplaySignature(pub String);

/// The trio of roles.
#[derive(Debug, Clone, Copy, PartialEq, Eq, PartialOrd, Ord)]
pub enum Role {
    Hero,
    Satellite(u8),
    Rail(u8),
}

/// The raise order of a role: rail first, satellites next, hero last (on
/// top).
pub open spec fn role_raise_rank(r: Role) -> u8 {
    match r {
        Role::Rail(_) => 0,
        Role::Satellite(_) => 1,
        Role::Hero => 2,
    }
}

impl Role {
    /// Raise order within the pod: satellites rise first, hero last.
    pub fn raise_rank(self) -> (r: u8)
        ensures
            r == role_raise_rank(self),
    {
        match self {
            Role::Rail(_) => 0,
            Role::Satellite(_) => 1,
            Role::Hero => 2,
        }
    }
}

/// The hero rises above every other role.
pub proof fn lemma_hero_rises_last(r: Role)
    ensures
        r != Role::Hero ==> role_raise_rank(r) < role_raise_rank(Role::Hero),
{
}

/// The signature text of a display world: its screens' geometry texts,
/// sorted by code point and joined by `|`.
pub open spec fn signature_text(parts: Seq<Seq<char>>) -> Seq<char> {
    join_with(sorted_texts(parts), "|"@)
}

impl DisplaySignature {
    /// The signature of the screens whose rounded geometry texts
    /// (`WxH@X,Y`) are `parts`, in any order.
    pub fn from_parts(parts: &Vec<String>) -> (r: DisplaySignature)
        ensures
            r.0@ == signature_text(views(parts@)),
    {
        let sorted = sort_strings(parts);
        DisplaySignature(join_texts(&sorted, "|"))
    }
}

/// The signature is the screens' alone: listing the same screens in
/// another order gives the same signature.
pub proof fn lemma_signature_order_free(a: Seq<Seq<char>>, b: Seq<Seq<char>>)
    requires
        a.to_multiset() == b.to_multiset(),
    ensures
        signature_text(a) == signature_text(b),
{
    lemma_sorted_texts_permutation(a, b);
}

} // verus!
