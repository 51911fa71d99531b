use vstd::prelude::*;

use crate::utils::{
    build_toml_value, merge_values, nest_tables, spec_merge, Conflict, Error,
};
use crate::value::{split_on, Tree, Value};
use vstd::string::*;

verus! {

/// A configuration source backed by the process environment: variables named
/// `PREFIX_...` become nested table entries. Reading the variables is the
/// caller's part; [`EnvironmentSource::build_tree`] shapes an explicit
/// snapshot of them.
pub struct EnvironmentSource {
    pub prefix: String,
}

/// Whether a variable belongs to this source: its name starts with the
/// prefix, then an underscore, then at least one more character.
pub open spec fn key_matches(k: Seq<char>, prefix: Seq<char>) -> bool {
    &&& k.len() > prefix.len() + 1
    &&& (forall|t: int| 0 <= t < prefix.len() ==> k[t] == #[trigger] prefix[t])
    &&& k[prefix.len() as int] == '_'
}

/// What `str::to_lowercase` returns; the result depends on the characters
/// alone.
pub uninterp spec fn lower_of(s: Seq<char>) -> Seq<char>;

/// The tree that one matching variable denotes: the name after the prefix is
/// lowercased and split on underscores into nested table keys.
pub open spec fn shaped_tree(k: Seq<char>, v: Seq<char>, prefix: Seq<char>) -> Tree {
    nest_tables(split_on(lower_of(k.skip(prefix.len() + 1 as int)), '_'), v)
}

/// Folds the trees of the matching variables from index `i` on into the
/// accumulated tree, in the order given, skipping the rest.
pub open spec fn fold_env(
    acc: Tree,
    vars: Seq<(String, String)>,
    prefix: Seq<char>,
    i: nat,
) -> Result<Tree, Conflict>
    decreases vars.len() - i,
{
    if i >= vars.len() {
        Ok(acc)
    } else if key_matches(vars[i as int].0@, prefix) {
        match spec_merge(acc, shaped_tree(vars[i as int].0@, vars[i as int].1@, prefix), "$"@) {
            Ok(m) => fold_env(m, vars, prefix, i + 1),
            Err(c) => Err(c),
        }
    } else {
        fold_env(acc, vars, prefix, i + 1)
    }
}

/// The tree that a whole snapshot of variables denotes under a prefix.
pub open spec fn spec_env_tree(vars: Seq<(String, String)>, prefix: Seq<char>) -> Result<
    Tree,
    Conflict,
> {
    fold_env(Tree::Table(Seq::empty()), vars, prefix, 0)
}

/// Relies on `str::to_lowercase`: the result depends on the characters alone.
#[verifier::external_body]
fn to_lowercase(s: &str) -> (r: String)
    ensures
        r@ == lower_of(s@),
{
    s.to_lowercase()
}

/// Whether the variable name starts with the prefix, an underscore, and at
/// least one more character.
#[verifier::loop_isolation(false)]
fn key_has_prefix(k: &String, prefix: &String) -> (b: bool)
    ensures
        b == key_matches(k@, prefix@),
{
    let kl = k.as_str().unicode_len();
    let pl = prefix.as_str().unicode_len();
    if kl <= pl {
        return false;
    }
    if kl - pl <= 1 {
        return false;
    }
    let mut t: usize = 0;
    while t < pl
        invariant
            t <= pl,
            pl == prefix@.len(),
            kl == k@.len(),
            kl > pl + 1,
            forall|u: int| 0 <= u < t ==> k@[u] == #[trigger] prefix@[u],
        decreases pl - t,
    {
        if k.as_str().get_char(t) != prefix.as_str().get_char(t) {
            return false;
        }
        t += 1;
    }
    k.as_str().get_char(pl) == '_'
}

impl EnvironmentSource {
    pub fn new(prefix: String) -> (r: Self)
        ensures
            r.prefix@ == prefix@,
    {
        Self { prefix }
    }

    /// Shapes a snapshot of environment variables into one tree: every
    /// variable named `PREFIX_REST` contributes `REST`, lowercased and split
    /// on underscores, as a chain of nested table keys holding its value, and
    /// all contributions merge in the order given.
    #[verifier::loop_isolation(false)]
    pub fn build_tree(&self, vars: &Vec<(String, String)>) -> (r: Result<Value, Error>)
        ensures
            match r {
                Ok(v) => spec_env_tree(vars@, self.prefix@) == Ok::<Tree, Conflict>(v@),
                Err(e) => spec_env_tree(vars@, self.prefix@) == Err::<Tree, Conflict>(e@),
            },
    {
        let ghost prefix = self.prefix@;
        let mut acc = Value::Table(Vec::new());
        proof {
            assert(acc@ == Tree::Table(crate::value::view_entries(
                Seq::<(String, Value)>::empty(),
            )));
            assert(acc@ == Tree::Table(Seq::<(Seq<char>, Tree)>::empty()));
        }
        let mut i: usize = 0;
        while i < vars.len()
            invariant
                i <= vars@.len(),
                spec_env_tree(vars@, prefix) == fold_env(acc@, vars@, prefix, i as nat),
            decreases vars@.len() - i,
        {
            let (key, val) = &vars[i];
            if key_has_prefix(key, &self.prefix) {
                let klen = key.as_str().unicode_len();
                let plen = self.prefix.as_str().unicode_len();
                let rest = key.as_str().substring_char(plen + 1, klen).to_owned();
                proof {
                    assert(rest@ =~= key@.skip(prefix.len() + 1 as int));
                }
                let lowered = to_lowercase(rest.as_str());
                let shaped = build_toml_value(lowered, val.clone());
                proof {
                    assert(shaped@ == shaped_tree(key@, val@, prefix));
                }
                match merge_values(&acc, &shaped, "$") {
                    Ok(m) => {
                        acc = m;
                    },
                    Err(e) => {
                        proof {
                            assert(fold_env(acc@, vars@, prefix, i as nat) == Err::<
                                Tree,
                                Conflict,
                            >(e@));
                        }
                        return Err(e);
                    },
                }
            }
            i += 1;
        }
        Ok(acc)
    }
}

} // verus!
