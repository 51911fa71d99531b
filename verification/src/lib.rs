//! A layered configuration builder: values loaded from several sources are
//! merged into one tree with deterministic override rules, string
//! placeholders referring to environment variables or to other keys of the
//! tree are resolved to a fixed point, and the result is handed on for typed
//! deserialization.

use vstd::prelude::*;

mod processor;
mod source;
mod value;

pub mod utils;

pub use crate::processor::EnvironmentVariableProcessor;
pub use crate::processor::PathVariableProcessor;
pub use crate::processor::ProcessorKind;
pub use crate::processor::UnresolvedPlaceholders;
pub use crate::processor::run_pipeline;
pub use crate::source::environment::EnvironmentSource;
pub use crate::source::file_based::parse_toml_source;
pub use crate::source::file_based::FileSource;
pub use crate::utils::Error;
pub use crate::value::Tree;
pub use crate::value::Value;

use crate::utils::{
    is_scalar, lemma_merge_into_empty, lemma_merge_preserves_wf, lemma_override_precedence,
    merge_values, spec_merge, table_value, Conflict,
};
use crate::value::{find_key, keys_unique, lemma_view_list, tree_wf, view_entries, view_list};

verus! {

/// Folds the source trees from index `i` on into the accumulated tree, one
/// merge at a time, each rooted at the path `$`.
pub open spec fn fold_sources(acc: Tree, trees: Seq<Tree>, i: nat) -> Result<Tree, Conflict>
    decreases trees.len() - i,
{
    if i >= trees.len() {
        Ok(acc)
    } else {
        match spec_merge(acc, trees[i as int], "$"@) {
            Ok(m) => fold_sources(m, trees, i + 1),
            Err(c) => Err(c),
        }
    }
}

/// The merge of a whole list of source trees, in load order, into an empty
/// table: later sources win ties.
pub open spec fn spec_merge_sources(trees: Seq<Tree>) -> Result<Tree, Conflict> {
    fold_sources(Tree::Table(Seq::empty()), trees, 0)
}

/// Law: override precedence across whole sources. When sources `S1` then
/// `S2` both define `key` as a scalar and their fold succeeds, the merged
/// configuration holds the later source's value at `key`: the last write
/// wins.
pub proof fn lemma_sources_override_precedence(
    s1: Seq<(Seq<char>, Tree)>,
    s2: Seq<(Seq<char>, Tree)>,
    key: Seq<char>,
)
    requires
        keys_unique(s1),
        keys_unique(s2),
        spec_merge_sources(seq![Tree::Table(s1), Tree::Table(s2)]) is Ok,
        find_key(s1, key) >= 0,
        find_key(s2, key) >= 0,
        is_scalar(s1[find_key(s1, key)].1),
        is_scalar(s2[find_key(s2, key)].1),
    ensures
        spec_merge_sources(seq![Tree::Table(s1), Tree::Table(s2)])->Ok_0 matches Tree::Table(ms)
            && table_value(ms, key) == Some(
            s2[find_key(s2, key)].1,
        ),
{
    let trees = seq![Tree::Table(s1), Tree::Table(s2)];
    lemma_merge_into_empty(s1, "$"@);
    assert(fold_sources(Tree::Table(Seq::empty()), trees, 0) == fold_sources(
        Tree::Table(s1),
        trees,
        1,
    ));
    assert(fold_sources(Tree::Table(s1), trees, 1) == match spec_merge(
        Tree::Table(s1),
        Tree::Table(s2),
        "$"@,
    ) {
        Ok(m) => fold_sources(m, trees, 2),
        Err(c) => Err(c),
    });
    lemma_override_precedence(s1, s2, "$"@, key);
}

/// Law: merging well-formed source trees, when it succeeds, yields a
/// well-formed tree: every table of the merged configuration has pairwise
/// distinct keys.
pub proof fn lemma_merge_sources_preserves_wf(trees: Seq<Tree>)
    requires
        forall|i: int| 0 <= i < trees.len() ==> tree_wf(#[trigger] trees[i]),
        spec_merge_sources(trees) is Ok,
    ensures
        tree_wf(spec_merge_sources(trees)->Ok_0),
{
    lemma_fold_sources_wf(Tree::Table(Seq::empty()), trees, 0);
}

proof fn lemma_fold_sources_wf(acc: Tree, trees: Seq<Tree>, i: nat)
    requires
        tree_wf(acc),
        forall|k: int| 0 <= k < trees.len() ==> tree_wf(#[trigger] trees[k]),
        fold_sources(acc, trees, i) is Ok,
    ensures
        tree_wf(fold_sources(acc, trees, i)->Ok_0),
    decreases trees.len() - i,
{
    if i < trees.len() {
        match spec_merge(acc, trees[i as int], "$"@) {
            Ok(m) => {
                lemma_merge_preserves_wf(acc, trees[i as int], "$"@);
                lemma_fold_sources_wf(m, trees, i + 1);
            },
            Err(_) => {},
        }
    }
}

/// Merges all loaded source trees, in order, into one tree, starting from an
/// empty table so that later sources override earlier ones key by key; the
/// first type conflict aborts the whole merge.
#[verifier::loop_isolation(false)]
pub fn merge_sources(sources: &Vec<Value>) -> (r: Result<Value, Error>)
    ensures
        match r {
            Ok(v) => spec_merge_sources(view_list(sources@)) == Ok::<Tree, Conflict>(v@),
            Err(e) => spec_merge_sources(view_list(sources@)) == Err::<Tree, Conflict>(e@),
        },
{
    let ghost trees = view_list(sources@);
    proof {
        lemma_view_list(sources@);
    }
    let mut result = Value::Table(Vec::new());
    proof {
        assert(result@ == Tree::Table(view_entries(Seq::<(String, Value)>::empty())));
        assert(result@ == Tree::Table(Seq::<(Seq<char>, Tree)>::empty()));
    }
    let mut i: usize = 0;
    while i < sources.len()
        invariant
            i <= sources@.len(),
            spec_merge_sources(trees) == fold_sources(result@, trees, i as nat),
        decreases sources@.len() - i,
    {
        proof {
            assert(trees[i as int] == sources@[i as int]@);
        }
        match merge_values(&result, &sources[i], "$") {
            Ok(m) => {
                result = m;
            },
            Err(e) => {
                proof {
                    assert(fold_sources(result@, trees, i as nat) == Err::<Tree, Conflict>(e@));
                }
                return Err(e);
            },
        }
        i += 1;
    }
    Ok(result)
}

} // verus!
