//! What the dependency analysis records of each declaration.

use crate::stmt::{Decl, DeclModel};
use std::collections::HashSet;
use std::sync::Arc;
use vstd::prelude::*;

verus! {

/// Whether a declaration is a loop, whose body is recorded with it.
#[derive(Debug, Clone, Copy, PartialEq, Eq, Structural, Default)]
pub enum Class {
    #[default]
    Ordinary,
    Loop,
}

/// A node of the dependency graph: a declaration with its estimated cost,
/// the mutable variables it reads (by the index of the declaration that last
/// wrote them), whether it is a loop, and, for a loop, the indices of the
/// declarations of its body.
#[derive(Debug)]
pub struct DeclarationMeta {
    pub complexity: usize,
    pub mut_deps: HashSet<usize>,
    pub class: Class,
    pub decl: Arc<Decl>,
    pub loops_decls_indexes: Vec<usize>,
}

/// The mathematical content of a node of the dependency graph.
pub struct MetaModel {
    pub complexity: nat,
    pub mut_deps: Set<usize>,
    pub class: Class,
    pub decl: DeclModel,
    pub loops_decls_indexes: Seq<usize>,
}

impl View for DeclarationMeta {
    type V = MetaModel;

    open spec fn view(&self) -> MetaModel {
        MetaModel {
            complexity: self.complexity as nat,
            mut_deps: self.mut_deps@,
            class: self.class,
            decl: self.decl@,
            loops_decls_indexes: self.loops_decls_indexes@,
        }
    }
}

/// Calls `HashSet::clone`: a set with the same elements.
#[verifier::external_body]
fn clone_index_set(s: &HashSet<usize>) -> (r: HashSet<usize>)
    ensures
        r@ == s@,
{
    s.clone()
}

/// Calls `Arc::clone`: another pointer to the same declaration.
#[verifier::external_body]
fn share_decl(d: &Arc<Decl>) -> (r: Arc<Decl>)
    ensures
        *r == **d,
{
    Arc::clone(d)
}

/// A copy of a list of indices.
pub fn copy_indices(v: &Vec<usize>) -> (r: Vec<usize>)
    ensures
        r@ == v@,
{
    let mut r: Vec<usize> = Vec::new();
    let mut i: usize = 0;
    while i < v.len()
        invariant
            i <= v.len(),
            r@ == v@.subrange(0, i as int),
        decreases v.len() - i,
    {
        r.push(v[i]);
        assert(r@ =~= v@.subrange(0, i + 1));
        i = i + 1;
    }
    assert(r@ =~= v@);
    r
}

impl Clone for DeclarationMeta {
    fn clone(&self) -> (r: Self)
        ensures
            r@ == self@,
    {
        DeclarationMeta {
            complexity: self.complexity,
            mut_deps: clone_index_set(&self.mut_deps),
            class: self.class,
            decl: share_decl(&self.decl),
            loops_decls_indexes: copy_indices(&self.loops_decls_indexes),
        }
    }
}

/// The model of a node weight of the dependency graph.
pub open spec fn opt_meta(m: Option<DeclarationMeta>) -> Option<MetaModel> {
    match m {
        Some(x) => Some(x@),
        None => None,
    }
}

} // verus!
