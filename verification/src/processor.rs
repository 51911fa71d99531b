use vstd::prelude::*;

use crate::utils::find_entry;
use crate::value::{
    find_char, find_key, keys_unique, lemma_find_char, lemma_view_entries, lemma_view_list,
    lemma_wf_entries_index, lemma_wf_list_index, split_on, split_string, strs_view, tree_get,
    tree_wf, view_entries, view_list, Tree, Value,
};
use vstd::string::*;

verus! {

pub open spec fn is_upper(c: char) -> bool {
    'A' <= c && c <= 'Z'
}

pub open spec fn is_lower(c: char) -> bool {
    'a' <= c && c <= 'z'
}

/// A letter that a placeholder name may hold: lowercase for tree paths,
/// uppercase for environment variables.
pub open spec fn name_letter(c: char, path_mode: bool) -> bool {
    if path_mode {
        is_lower(c)
    } else {
        is_upper(c)
    }
}

/// A separator that a placeholder name may hold between letter runs: an
/// underscore, and for tree paths also a dot.
pub open spec fn name_joiner(c: char, path_mode: bool) -> bool {
    c == '_' || (path_mode && c == '.')
}

pub open spec fn name_char(c: char, path_mode: bool) -> bool {
    name_letter(c, path_mode) || name_joiner(c, path_mode)
}

/// A well-formed placeholder name: letter runs separated by single joiners,
/// starting and ending with a letter.
pub open spec fn is_name(s: Seq<char>, path_mode: bool) -> bool {
    &&& s.len() > 0
    &&& name_letter(s[0], path_mode)
    &&& forall|i: int|
        0 <= i < s.len() ==> (name_letter(#[trigger] s[i], path_mode) || (name_joiner(
            s[i],
            path_mode,
        ) && i + 1 < s.len() && name_letter(s[i + 1], path_mode)))
}

/// `s` starts with `${`, and `s[j]` is the closing brace of a well-formed
/// placeholder name between them.
pub open spec fn match_end_at(s: Seq<char>, j: int, path_mode: bool) -> bool {
    2 < j < s.len() && s[j] == '}' && is_name(s.subrange(2, j), path_mode)
}

/// A placeholder `${name}` stands at the very start of `s`.
pub open spec fn match_at_start(s: Seq<char>, path_mode: bool) -> bool {
    s.len() >= 4 && s[0] == '$' && s[1] == '{' && exists|j: int| match_end_at(s, j, path_mode)
}

/// The index of the closing brace of the placeholder at the start of `s`.
pub open spec fn match_end(s: Seq<char>, path_mode: bool) -> int {
    choose|j: int| match_end_at(s, j, path_mode)
}

/// A closing brace position is unique: a name holds no brace.
pub proof fn lemma_match_end_unique(s: Seq<char>, j1: int, j2: int, path_mode: bool)
    requires
        match_end_at(s, j1, path_mode),
        match_end_at(s, j2, path_mode),
    ensures
        j1 == j2,
{
    if j1 < j2 {
        assert(s.subrange(2, j2)[j1 - 2] == '}');
    }
    if j2 < j1 {
        assert(s.subrange(2, j1)[j2 - 2] == '}');
    }
}

/// Replaces every placeholder in `s`, scanning left to right, by the value
/// that `vals` gives its name; what a replacement inserts is not scanned
/// again.
pub open spec fn subst_str(
    s: Seq<char>,
    path_mode: bool,
    vals: spec_fn(Seq<char>) -> Seq<char>,
) -> Seq<char>
    decreases s.len(),
    via subst_str_decreases
{
    if s.len() == 0 {
        Seq::empty()
    } else if match_at_start(s, path_mode) {
        let j = match_end(s, path_mode);
        vals(s.subrange(2, j)) + subst_str(s.skip(j + 1), path_mode, vals)
    } else {
        seq![s[0]] + subst_str(s.skip(1), path_mode, vals)
    }
}

#[via_fn]
proof fn subst_str_decreases(s: Seq<char>, path_mode: bool, vals: spec_fn(Seq<char>) -> Seq<char>) {
    if s.len() != 0 && match_at_start(s, path_mode) {
        let j = match_end(s, path_mode);
        assert(match_end_at(s, j, path_mode));
    }
}

/// Rewrites every string leaf of the tree with [`subst_str`]; other leaves
/// and the shape of the tree are kept.
pub open spec fn subst_tree(t: Tree, path_mode: bool, vals: spec_fn(Seq<char>) -> Seq<char>) -> Tree
    decreases t, 0nat,
    via subst_tree_decreases
{
    match t {
        Tree::String(s) => Tree::String(subst_str(s, path_mode, vals)),
        Tree::Array(es) => Tree::Array(subst_list(es, path_mode, vals)),
        Tree::Table(es) => Tree::Table(subst_entries(es, path_mode, vals)),
        other => other,
    }
}

pub open spec fn subst_list(
    es: Seq<Tree>,
    path_mode: bool,
    vals: spec_fn(Seq<char>) -> Seq<char>,
) -> Seq<Tree>
    decreases es, es.len(),
    via subst_list_decreases
{
    if es.len() == 0 {
        Seq::empty()
    } else {
        seq![subst_tree(es.first(), path_mode, vals)] + subst_list(es.drop_first(), path_mode, vals)
    }
}

pub open spec fn subst_entries(
    es: Seq<(Seq<char>, Tree)>,
    path_mode: bool,
    vals: spec_fn(Seq<char>) -> Seq<char>,
) -> Seq<(Seq<char>, Tree)>
    decreases es, es.len(),
    via subst_entries_decreases
{
    if es.len() == 0 {
        Seq::empty()
    } else {
        seq![(es.first().0, subst_tree(es.first().1, path_mode, vals))] + subst_entries(
            es.drop_first(),
            path_mode,
            vals,
        )
    }
}

/// Whether a substitution pass leaves every string leaf of the tree as it was.
pub open spec fn subst_tree_unchanged(
    t: Tree,
    path_mode: bool,
    vals: spec_fn(Seq<char>) -> Seq<char>,
) -> bool
    decreases t, 0nat,
    via subst_tree_unchanged_decreases
{
    match t {
        Tree::String(s) => subst_str(s, path_mode, vals) == s,
        Tree::Array(es) => subst_list_unchanged(es, path_mode, vals),
        Tree::Table(es) => subst_entries_unchanged(es, path_mode, vals),
        _ => true,
    }
}

pub open spec fn subst_list_unchanged(
    es: Seq<Tree>,
    path_mode: bool,
    vals: spec_fn(Seq<char>) -> Seq<char>,
) -> bool
    decreases es, es.len(),
    via subst_list_unchanged_decreases
{
    es.len() == 0 || (subst_tree_unchanged(es.first(), path_mode, vals) && subst_list_unchanged(
        es.drop_first(),
        path_mode,
        vals,
    ))
}

pub open spec fn subst_entries_unchanged(
    es: Seq<(Seq<char>, Tree)>,
    path_mode: bool,
    vals: spec_fn(Seq<char>) -> Seq<char>,
) -> bool
    decreases es, es.len(),
    via subst_entries_unchanged_decreases
{
    es.len() == 0 || (subst_tree_unchanged(es.first().1, path_mode, vals)
        && subst_entries_unchanged(es.drop_first(), path_mode, vals))
}

#[via_fn]
proof fn subst_tree_decreases(t: Tree, path_mode: bool, vals: spec_fn(Seq<char>) -> Seq<char>) {
    if t is Array {
        assert(decreases_to!(t => t->Array_0));
    }
    if t is Table {
        assert(decreases_to!(t => t->Table_0));
    }
}

#[via_fn]
proof fn subst_list_decreases(
    es: Seq<Tree>,
    path_mode: bool,
    vals: spec_fn(Seq<char>) -> Seq<char>,
) {
    if es.len() > 0 {
        assert(decreases_to!(es => es[0]));
    }
}

#[via_fn]
proof fn subst_entries_decreases(
    es: Seq<(Seq<char>, Tree)>,
    path_mode: bool,
    vals: spec_fn(Seq<char>) -> Seq<char>,
) {
    if es.len() > 0 {
        assert(decreases_to!(es => es[0]));
        assert(decreases_to!(es[0] => es[0].1));
    }
}

#[via_fn]
proof fn subst_tree_unchanged_decreases(
    t: Tree,
    path_mode: bool,
    vals: spec_fn(Seq<char>) -> Seq<char>,
) {
    if t is Array {
        assert(decreases_to!(t => t->Array_0));
    }
    if t is Table {
        assert(decreases_to!(t => t->Table_0));
    }
}

#[via_fn]
proof fn subst_list_unchanged_decreases(
    es: Seq<Tree>,
    path_mode: bool,
    vals: spec_fn(Seq<char>) -> Seq<char>,
) {
    if es.len() > 0 {
        assert(decreases_to!(es => es[0]));
    }
}

#[via_fn]
proof fn subst_entries_unchanged_decreases(
    es: Seq<(Seq<char>, Tree)>,
    path_mode: bool,
    vals: spec_fn(Seq<char>) -> Seq<char>,
) {
    if es.len() > 0 {
        assert(decreases_to!(es => es[0]));
        assert(decreases_to!(es[0] => es[0].1));
    }
}

pub proof fn lemma_subst_list_index(
    es: Seq<Tree>,
    path_mode: bool,
    vals: spec_fn(Seq<char>) -> Seq<char>,
)
    ensures
        subst_list(es, path_mode, vals).len() == es.len(),
        forall|i: int|
            0 <= i < es.len() ==> subst_list(es, path_mode, vals)[i] == subst_tree(
                #[trigger] es[i],
                path_mode,
                vals,
            ),
        subst_list_unchanged(es, path_mode, vals) <==> (forall|i: int|
            0 <= i < es.len() ==> subst_tree_unchanged(#[trigger] es[i], path_mode, vals)),
    decreases es,
{
    if es.len() > 0 {
        lemma_subst_list_index(es.drop_first(), path_mode, vals);
        assert(subst_list(es, path_mode, vals) == seq![
            subst_tree(es.first(), path_mode, vals),
        ] + subst_list(es.drop_first(), path_mode, vals));
        assert forall|i: int| 0 <= i < es.len() implies subst_list(es, path_mode, vals)[i]
            == subst_tree(#[trigger] es[i], path_mode, vals) by {
            if i > 0 {
                assert(es.drop_first()[i - 1] == es[i]);
                assert(subst_list(es, path_mode, vals)[i] == subst_list(
                    es.drop_first(),
                    path_mode,
                    vals,
                )[i - 1]);
            }
        }
        if subst_list_unchanged(es, path_mode, vals) {
            assert forall|i: int| 0 <= i < es.len() implies subst_tree_unchanged(
                #[trigger] es[i],
                path_mode,
                vals,
            ) by {
                if i > 0 {
                    assert(es.drop_first()[i - 1] == es[i]);
                }
            }
        }
        if forall|i: int| 0 <= i < es.len() ==> subst_tree_unchanged(
            #[trigger] es[i],
            path_mode,
            vals,
        ) {
            assert forall|i: int| 0 <= i < es.drop_first().len() implies subst_tree_unchanged(
                #[trigger] es.drop_first()[i],
                path_mode,
                vals,
            ) by {
                assert(es.drop_first()[i] == es[i + 1]);
            }
        }
    }
}

pub proof fn lemma_subst_entries_index(
    es: Seq<(Seq<char>, Tree)>,
    path_mode: bool,
    vals: spec_fn(Seq<char>) -> Seq<char>,
)
    ensures
        subst_entries(es, path_mode, vals).len() == es.len(),
        forall|i: int|
            0 <= i < es.len() ==> subst_entries(es, path_mode, vals)[i] == (
                (#[trigger] es[i]).0,
                subst_tree(es[i].1, path_mode, vals),
            ),
        subst_entries_unchanged(es, path_mode, vals) <==> (forall|i: int|
            0 <= i < es.len() ==> subst_tree_unchanged((#[trigger] es[i]).1, path_mode, vals)),
    decreases es,
{
    if es.len() > 0 {
        lemma_subst_entries_index(es.drop_first(), path_mode, vals);
        assert(subst_entries(es, path_mode, vals) == seq![
            (es.first().0, subst_tree(es.first().1, path_mode, vals)),
        ] + subst_entries(es.drop_first(), path_mode, vals));
        assert forall|i: int| 0 <= i < es.len() implies subst_entries(es, path_mode, vals)[i] == (
            (#[trigger] es[i]).0,
            subst_tree(es[i].1, path_mode, vals),
        ) by {
            if i > 0 {
                assert(es.drop_first()[i - 1] == es[i]);
                assert(subst_entries(es, path_mode, vals)[i] == subst_entries(
                    es.drop_first(),
                    path_mode,
                    vals,
                )[i - 1]);
            }
        }
        if subst_entries_unchanged(es, path_mode, vals) {
            assert forall|i: int| 0 <= i < es.len() implies subst_tree_unchanged(
                (#[trigger] es[i]).1,
                path_mode,
                vals,
            ) by {
                if i > 0 {
                    assert(es.drop_first()[i - 1] == es[i]);
                }
            }
        }
        if forall|i: int| 0 <= i < es.len() ==> subst_tree_unchanged(
            (#[trigger] es[i]).1,
            path_mode,
            vals,
        ) {
            assert forall|i: int| 0 <= i < es.drop_first().len() implies subst_tree_unchanged(
                (#[trigger] es.drop_first()[i]).1,
                path_mode,
                vals,
            ) by {
                assert(es.drop_first()[i] == es[i + 1]);
            }
        }
    }
}

/// Law: a substitution pass reports no change exactly when it returns the
/// tree unchanged.
pub proof fn lemma_subst_unchanged_iff(
    t: Tree,
    path_mode: bool,
    vals: spec_fn(Seq<char>) -> Seq<char>,
)
    ensures
        subst_tree_unchanged(t, path_mode, vals) <==> subst_tree(t, path_mode, vals) == t,
    decreases t,
{
    match t {
        Tree::Array(es) => {
            lemma_subst_list_index(es, path_mode, vals);
            assert forall|i: int| 0 <= i < es.len() implies (subst_tree_unchanged(
                #[trigger] es[i],
                path_mode,
                vals,
            ) <==> subst_tree(es[i], path_mode, vals) == es[i]) by {
                assert(decreases_to!(es => es[i]));
                lemma_subst_unchanged_iff(es[i], path_mode, vals);
            }
            if subst_list_unchanged(es, path_mode, vals) {
                assert(subst_list(es, path_mode, vals) =~= es);
            }
            if subst_tree(t, path_mode, vals) == t {
                assert forall|i: int| 0 <= i < es.len() implies subst_tree_unchanged(
                    #[trigger] es[i],
                    path_mode,
                    vals,
                ) by {
                    assert(subst_list(es, path_mode, vals)[i] == es[i]);
                }
            }
        },
        Tree::Table(es) => {
            lemma_subst_entries_index(es, path_mode, vals);
            assert forall|i: int| 0 <= i < es.len() implies (subst_tree_unchanged(
                (#[trigger] es[i]).1,
                path_mode,
                vals,
            ) <==> subst_tree(es[i].1, path_mode, vals) == es[i].1) by {
                assert(decreases_to!(es => es[i]));
                assert(decreases_to!(es[i] => es[i].1));
                lemma_subst_unchanged_iff(es[i].1, path_mode, vals);
            }
            if subst_entries_unchanged(es, path_mode, vals) {
                assert forall|i: int| 0 <= i < es.len() implies subst_entries(
                    es,
                    path_mode,
                    vals,
                )[i] == es[i] by {
                    assert(subst_tree(es[i].1, path_mode, vals) == es[i].1);
                }
                assert(subst_entries(es, path_mode, vals) =~= es);
            }
            if subst_tree(t, path_mode, vals) == t {
                assert forall|i: int| 0 <= i < es.len() implies subst_tree_unchanged(
                    (#[trigger] es[i]).1,
                    path_mode,
                    vals,
                ) by {
                    assert(subst_entries(es, path_mode, vals)[i] == es[i]);
                }
            }
        },
        _ => {},
    }
}

/// Law: a substitution pass keeps the tree well-formed: it rewrites string
/// leaves only, so every table keeps its keys, pairwise distinct.
pub proof fn lemma_subst_preserves_wf(
    t: Tree,
    path_mode: bool,
    vals: spec_fn(Seq<char>) -> Seq<char>,
)
    requires
        tree_wf(t),
    ensures
        tree_wf(subst_tree(t, path_mode, vals)),
    decreases t,
{
    match t {
        Tree::Array(es) => {
            lemma_subst_list_index(es, path_mode, vals);
            let ms = subst_list(es, path_mode, vals);
            lemma_wf_list_index(es);
            lemma_wf_list_index(ms);
            assert forall|i: int| 0 <= i < ms.len() implies tree_wf(#[trigger] ms[i]) by {
                assert(decreases_to!(es => es[i]));
                lemma_subst_preserves_wf(es[i], path_mode, vals);
            }
        },
        Tree::Table(es) => {
            lemma_subst_entries_index(es, path_mode, vals);
            let ms = subst_entries(es, path_mode, vals);
            lemma_wf_entries_index(es);
            lemma_wf_entries_index(ms);
            assert forall|i: int| 0 <= i < ms.len() implies tree_wf((#[trigger] ms[i]).1) by {
                assert(decreases_to!(es => es[i]));
                assert(decreases_to!(es[i] => es[i].1));
                lemma_subst_preserves_wf(es[i].1, path_mode, vals);
            }
            assert(keys_unique(ms)) by {
                assert(forall|i: int| 0 <= i < ms.len() ==> (#[trigger] ms[i]).0 == es[i].0);
            }
        },
        _ => {},
    }
}

/// Law: when a whole round of the pipeline reports no change, every processor
/// of the round leaves that tree exactly as it is: the tree is a fixed point.
pub proof fn lemma_fixed_point(t: Tree, procs: Seq<ProcessorKind>, env: Seq<(String, String)>)
    requires
        !run_pass(t, procs, env).1,
    ensures
        forall|i: int| 0 <= i < procs.len() ==> #[trigger] stage_tree(t, procs[i], env) == t,
{
    assert forall|i: int| 0 <= i < procs.len() implies #[trigger] stage_tree(t, procs[i], env)
        == t by {
        lemma_stages_unchanged(t, procs, env, 0, i);
    }
}

/// Inside a round that changes nothing, the tree entering every stage is the
/// round's own starting tree, and the stage keeps it.
proof fn lemma_stages_unchanged(
    t: Tree,
    procs: Seq<ProcessorKind>,
    env: Seq<(String, String)>,
    i: nat,
    target: int,
)
    requires
        i <= target < procs.len(),
        !run_stages(t, procs, env, i).1,
    ensures
        stage_tree(t, procs[target], env) == t,
    decreases procs.len() - i,
{
    assert(!stage_unchanged(t, procs[i as int], env) == false);
    match procs[i as int] {
        ProcessorKind::EnvironmentVariable => {
            lemma_subst_unchanged_iff(t, false, env_vals(env));
        },
        ProcessorKind::PathVariable => {
            lemma_subst_unchanged_iff(t, true, path_vals(t));
        },
    }
    assert(stage_tree(t, procs[i as int], env) == t);
    if i < target {
        lemma_stages_unchanged(t, procs, env, i + 1, target);
    }
}

/// A string without a dollar sign holds no placeholder: any pass leaves it
/// as it is.
pub proof fn lemma_subst_str_no_dollar(
    s: Seq<char>,
    path_mode: bool,
    vals: spec_fn(Seq<char>) -> Seq<char>,
)
    requires
        forall|i: int| 0 <= i < s.len() ==> s[i] != '$',
    ensures
        subst_str(s, path_mode, vals) == s,
    decreases s.len(),
{
    if s.len() == 0 {
        assert(subst_str(s, path_mode, vals) =~= s);
    } else {
        assert(!match_at_start(s, path_mode));
        assert forall|i: int| 0 <= i < s.skip(1).len() implies s.skip(1)[i] != '$' by {
            assert(s.skip(1)[i] == s[i + 1]);
        }
        lemma_subst_str_no_dollar(s.skip(1), path_mode, vals);
        assert(seq![s[0]] + s.skip(1) =~= s);
    }
}

/// One scan step over a position where no placeholder starts: the character
/// is kept and the scan moves on by one.
proof fn lemma_subst_step_char(s: Seq<char>, path_mode: bool, vals: spec_fn(Seq<char>) -> Seq<char>)
    requires
        s.len() > 0,
        (s[0] != '$') || (s.len() >= 2 && s[1] != '{') || (s.len() >= 3 && !name_letter(
            s[2],
            path_mode,
        )),
    ensures
        subst_str(s, path_mode, vals) == seq![s[0]] + subst_str(s.skip(1), path_mode, vals),
{
    if s.len() >= 4 && s[0] == '$' && s[1] == '{' {
        assert forall|j: int| !match_end_at(s, j, path_mode) by {
            if match_end_at(s, j, path_mode) {
                assert(s.subrange(2, j)[0] == s[2]);
            }
        }
    }
    assert(!match_at_start(s, path_mode));
}

/// One scan step over a placeholder whose closing brace stands at `j`: its
/// name is replaced and the scan resumes after the brace.
proof fn lemma_subst_step_match(
    s: Seq<char>,
    j: int,
    path_mode: bool,
    vals: spec_fn(Seq<char>) -> Seq<char>,
)
    requires
        s.len() >= 4,
        s[0] == '$',
        s[1] == '{',
        match_end_at(s, j, path_mode),
    ensures
        subst_str(s, path_mode, vals) == vals(s.subrange(2, j)) + subst_str(
            s.skip(j + 1),
            path_mode,
            vals,
        ),
{
    assert(match_at_start(s, path_mode));
    assert(match_end_at(s, match_end(s, path_mode), path_mode));
    lemma_match_end_unique(s, match_end(s, path_mode), j, path_mode);
}

/// The environment pass over the chain string: only the uppercase
/// placeholder is an environment name, so it alone is replaced.
proof fn lemma_walk_env_chain(vals: spec_fn(Seq<char>) -> Seq<char>)
    requires
        vals("ENV_VAR"@) == "2"@,
    ensures
        subst_str("${a} and ${ENV_VAR}"@, false, vals) == "${a} and 2"@,
{
    reveal_strlit("${a} and ${ENV_VAR}");
    reveal_strlit("${a} and 2");
    reveal_strlit("ENV_VAR");
    reveal_strlit("2");
    let x = "${a} and ${ENV_VAR}"@;
    let s9 = x.skip(9);
    assert(s9.subrange(2, 9) =~= "ENV_VAR"@);
    assert(is_name("ENV_VAR"@, false));
    assert(match_end_at(s9, 9, false));
    lemma_subst_step_match(s9, 9, false, vals);
    assert(s9.skip(10) =~= Seq::<char>::empty());
    assert(subst_str(Seq::<char>::empty(), false, vals) =~= Seq::<char>::empty());
    assert(subst_str(s9, false, vals) == "2"@ + Seq::<char>::empty());
    lemma_subst_step_char(x.skip(8), false, vals);
    assert(x.skip(8).skip(1) =~= x.skip(9));
    lemma_subst_step_char(x.skip(7), false, vals);
    assert(x.skip(7).skip(1) =~= x.skip(8));
    lemma_subst_step_char(x.skip(6), false, vals);
    assert(x.skip(6).skip(1) =~= x.skip(7));
    lemma_subst_step_char(x.skip(5), false, vals);
    assert(x.skip(5).skip(1) =~= x.skip(6));
    lemma_subst_step_char(x.skip(4), false, vals);
    assert(x.skip(4).skip(1) =~= x.skip(5));
    lemma_subst_step_char(x.skip(3), false, vals);
    assert(x.skip(3).skip(1) =~= x.skip(4));
    lemma_subst_step_char(x.skip(2), false, vals);
    assert(x.skip(2).skip(1) =~= x.skip(3));
    lemma_subst_step_char(x.skip(1), false, vals);
    assert(x.skip(1).skip(1) =~= x.skip(2));
    assert(!name_letter(x[2], false));
    lemma_subst_step_char(x, false, vals);
    assert(x.skip(1) == x.skip(0).skip(1)) by {
        assert(x.skip(0) =~= x);
    }
    assert(subst_str(x, false, vals) =~= "${a} and 2"@);
}

/// The path pass over the chain string: only the lowercase placeholder is a
/// path, so it alone is replaced.
proof fn lemma_walk_path_chain(vals: spec_fn(Seq<char>) -> Seq<char>)
    requires
        vals("a"@) == "1"@,
    ensures
        subst_str("${a} and ${ENV_VAR}"@, true, vals) == "1 and ${ENV_VAR}"@,
{
    reveal_strlit("${a} and ${ENV_VAR}");
    reveal_strlit("1 and ${ENV_VAR}");
    reveal_strlit("a");
    reveal_strlit("1");
    let x = "${a} and ${ENV_VAR}"@;
    assert(x.skip(19) =~= Seq::<char>::empty());
    assert(subst_str(Seq::<char>::empty(), true, vals) =~= Seq::<char>::empty());
    lemma_subst_step_char(x.skip(18), true, vals);
    assert(x.skip(18).skip(1) =~= x.skip(19));
    lemma_subst_step_char(x.skip(17), true, vals);
    assert(x.skip(17).skip(1) =~= x.skip(18));
    lemma_subst_step_char(x.skip(16), true, vals);
    assert(x.skip(16).skip(1) =~= x.skip(17));
    lemma_subst_step_char(x.skip(15), true, vals);
    assert(x.skip(15).skip(1) =~= x.skip(16));
    lemma_subst_step_char(x.skip(14), true, vals);
    assert(x.skip(14).skip(1) =~= x.skip(15));
    lemma_subst_step_char(x.skip(13), true, vals);
    assert(x.skip(13).skip(1) =~= x.skip(14));
    lemma_subst_step_char(x.skip(12), true, vals);
    assert(x.skip(12).skip(1) =~= x.skip(13));
    lemma_subst_step_char(x.skip(11), true, vals);
    assert(x.skip(11).skip(1) =~= x.skip(12));
    lemma_subst_step_char(x.skip(10), true, vals);
    assert(x.skip(10).skip(1) =~= x.skip(11));
    assert(x.skip(9)[0] == '$' && x.skip(9)[1] == '{' && !name_letter(x.skip(9)[2], true));
    lemma_subst_step_char(x.skip(9), true, vals);
    assert(x.skip(9).skip(1) =~= x.skip(10));
    lemma_subst_step_char(x.skip(8), true, vals);
    assert(x.skip(8).skip(1) =~= x.skip(9));
    lemma_subst_step_char(x.skip(7), true, vals);
    assert(x.skip(7).skip(1) =~= x.skip(8));
    lemma_subst_step_char(x.skip(6), true, vals);
    assert(x.skip(6).skip(1) =~= x.skip(7));
    lemma_subst_step_char(x.skip(5), true, vals);
    assert(x.skip(5).skip(1) =~= x.skip(6));
    lemma_subst_step_char(x.skip(4), true, vals);
    assert(x.skip(4).skip(1) =~= x.skip(5));
    assert(x.subrange(2, 3) =~= "a"@);
    assert(is_name("a"@, true));
    assert(match_end_at(x, 3, true));
    lemma_subst_step_match(x, 3, true, vals);
    assert(subst_str(x, true, vals) =~= "1 and ${ENV_VAR}"@);
}

/// The path pass over the half-resolved chain: the path placeholder is
/// replaced in front of the already-resolved tail.
proof fn lemma_walk_path_rest(vals: spec_fn(Seq<char>) -> Seq<char>)
    requires
        vals("a"@) == "1"@,
    ensures
        subst_str("${a} and 2"@, true, vals) == "1 and 2"@,
{
    reveal_strlit("${a} and 2");
    reveal_strlit("1 and 2");
    reveal_strlit("a");
    reveal_strlit("1");
    let y = "${a} and 2"@;
    assert(y.skip(10) =~= Seq::<char>::empty());
    assert(subst_str(Seq::<char>::empty(), true, vals) =~= Seq::<char>::empty());
    lemma_subst_step_char(y.skip(9), true, vals);
    assert(y.skip(9).skip(1) =~= y.skip(10));
    lemma_subst_step_char(y.skip(8), true, vals);
    assert(y.skip(8).skip(1) =~= y.skip(9));
    lemma_subst_step_char(y.skip(7), true, vals);
    assert(y.skip(7).skip(1) =~= y.skip(8));
    lemma_subst_step_char(y.skip(6), true, vals);
    assert(y.skip(6).skip(1) =~= y.skip(7));
    lemma_subst_step_char(y.skip(5), true, vals);
    assert(y.skip(5).skip(1) =~= y.skip(6));
    lemma_subst_step_char(y.skip(4), true, vals);
    assert(y.skip(4).skip(1) =~= y.skip(5));
    assert(y.subrange(2, 3) =~= "a"@);
    assert(is_name("a"@, true));
    assert(match_end_at(y, 3, true));
    lemma_subst_step_match(y, 3, true, vals);
    assert(subst_str(y, true, vals) =~= "1 and 2"@);
}

/// The environment pass over the other half-resolved chain: the environment
/// placeholder is replaced after the already-resolved front.
proof fn lemma_walk_env_rest(vals: spec_fn(Seq<char>) -> Seq<char>)
    requires
        vals("ENV_VAR"@) == "2"@,
    ensures
        subst_str("1 and ${ENV_VAR}"@, false, vals) == "1 and 2"@,
{
    reveal_strlit("1 and ${ENV_VAR}");
    reveal_strlit("1 and 2");
    reveal_strlit("ENV_VAR");
    reveal_strlit("2");
    let z = "1 and ${ENV_VAR}"@;
    let s6 = z.skip(6);
    assert(s6.subrange(2, 9) =~= "ENV_VAR"@);
    assert(is_name("ENV_VAR"@, false));
    assert(match_end_at(s6, 9, false));
    lemma_subst_step_match(s6, 9, false, vals);
    assert(s6.skip(10) =~= Seq::<char>::empty());
    assert(subst_str(Seq::<char>::empty(), false, vals) =~= Seq::<char>::empty());
    assert(subst_str(s6, false, vals) == "2"@ + Seq::<char>::empty());
    lemma_subst_step_char(z.skip(5), false, vals);
    assert(z.skip(5).skip(1) =~= z.skip(6));
    lemma_subst_step_char(z.skip(4), false, vals);
    assert(z.skip(4).skip(1) =~= z.skip(5));
    lemma_subst_step_char(z.skip(3), false, vals);
    assert(z.skip(3).skip(1) =~= z.skip(4));
    lemma_subst_step_char(z.skip(2), false, vals);
    assert(z.skip(2).skip(1) =~= z.skip(3));
    lemma_subst_step_char(z.skip(1), false, vals);
    assert(z.skip(1).skip(1) =~= z.skip(2));
    lemma_subst_step_char(z, false, vals);
    assert(z.skip(1) == z.skip(0).skip(1)) by {
        assert(z.skip(0) =~= z);
    }
    assert(subst_str(z, false, vals) =~= "1 and 2"@);
}

/// One pass over a table of two string leaves, spelled out entry by entry.
proof fn lemma_subst_two_string_table(
    ak: Seq<char>,
    sa: Seq<char>,
    bk: Seq<char>,
    sb: Seq<char>,
    path_mode: bool,
    vals: spec_fn(Seq<char>) -> Seq<char>,
)
    ensures
        subst_tree(
            Tree::Table(seq![(ak, Tree::String(sa)), (bk, Tree::String(sb))]),
            path_mode,
            vals,
        ) == Tree::Table(
            seq![
                (ak, Tree::String(subst_str(sa, path_mode, vals))),
                (bk, Tree::String(subst_str(sb, path_mode, vals))),
            ],
        ),
        subst_tree_unchanged(
            Tree::Table(seq![(ak, Tree::String(sa)), (bk, Tree::String(sb))]),
            path_mode,
            vals,
        ) == (subst_str(sa, path_mode, vals) == sa && subst_str(sb, path_mode, vals) == sb),
{
    let es = seq![(ak, Tree::String(sa)), (bk, Tree::String(sb))];
    lemma_subst_entries_index(es, path_mode, vals);
    assert(es[0] == (ak, Tree::String(sa)));
    assert(es[1] == (bk, Tree::String(sb)));
    assert(subst_entries(es, path_mode, vals) =~= seq![
        (ak, Tree::String(subst_str(sa, path_mode, vals))),
        (bk, Tree::String(subst_str(sb, path_mode, vals))),
    ]);
    if subst_str(sa, path_mode, vals) == sa && subst_str(sb, path_mode, vals) == sb {
        assert forall|i: int| 0 <= i < es.len() implies subst_tree_unchanged(
            (#[trigger] es[i]).1,
            path_mode,
            vals,
        ) by {
            if i == 0 {
                assert(es[i].1 == Tree::String(sa));
            } else {
                assert(es[i].1 == Tree::String(sb));
            }
        }
    }
    if subst_entries_unchanged(es, path_mode, vals) {
        assert(subst_tree_unchanged(es[0].1, path_mode, vals));
        assert(subst_tree_unchanged(es[1].1, path_mode, vals));
    }
}

/// Looking a one-segment path up in a two-entry table whose first entry
/// holds that key and a string.
proof fn lemma_path_value_first_entry(ak: Seq<char>, va: Seq<char>, bk: Seq<char>, tb: Tree)
    requires
        ak.len() > 0,
        forall|i: int| 0 <= i < ak.len() ==> ak[i] != '.',
    ensures
        path_value(Tree::Table(seq![(ak, Tree::String(va)), (bk, tb)]), ak) == va,
{
    lemma_find_char(ak, '.');
    if find_char(ak, '.') != -1 {
        assert(ak[find_char(ak, '.')] == '.');
    }
    assert(split_on(ak, '.') == seq![ak]);
    let es = seq![(ak, Tree::String(va)), (bk, tb)];
    assert(es.first() == (ak, Tree::String(va)));
    assert(find_key(es, ak) == 0);
    let segs = seq![ak];
    assert(segs.drop_first() =~= Seq::<Seq<char>>::empty());
    assert(tree_get(Tree::String(va), Seq::<Seq<char>>::empty()) == Some(Tree::String(va)));
    assert(tree_get(Tree::Table(es), segs) == Some(Tree::String(va)));
}

/// Law: chained interpolation does not depend on the order in which the two
/// built-in processors are enabled. On the tree `{a: "1", b: "${a} and
/// ${ENV_VAR}"}` with the single variable `ENV_VAR=2`, the pipeline reaches
/// the same fixed point `{a: "1", b: "1 and 2"}` under either registration
/// order, with any allowance of further rounds.
pub proof fn lemma_chain_order_independent(env: Seq<(String, String)>, fuel: nat)
    requires
        env_view(env) == seq![("ENV_VAR"@, "2"@)],
        fuel >= 1,
    ensures
        ({
            let t0 = Tree::Table(
                seq![
                    ("a"@, Tree::String("1"@)),
                    ("b"@, Tree::String("${a} and ${ENV_VAR}"@)),
                ],
            );
            let tf = Tree::Table(
                seq![("a"@, Tree::String("1"@)), ("b"@, Tree::String("1 and 2"@))],
            );
            &&& run_passes(
                t0,
                seq![ProcessorKind::EnvironmentVariable, ProcessorKind::PathVariable],
                env,
                fuel,
            ) == Some(tf)
            &&& run_passes(
                t0,
                seq![ProcessorKind::PathVariable, ProcessorKind::EnvironmentVariable],
                env,
                fuel,
            ) == Some(tf)
        }),
{
    reveal_strlit("a");
    reveal_strlit("b");
    reveal_strlit("1");
    reveal_strlit("2");
    reveal_strlit("ENV_VAR");
    reveal_strlit("${a} and ${ENV_VAR}");
    reveal_strlit("${a} and 2");
    reveal_strlit("1 and ${ENV_VAR}");
    reveal_strlit("1 and 2");
    let ak = "a"@;
    let bk = "b"@;
    let one = "1"@;
    let x = "${a} and ${ENV_VAR}"@;
    let y = "${a} and 2"@;
    let z = "1 and ${ENV_VAR}"@;
    let w = "1 and 2"@;
    let t0 = Tree::Table(seq![(ak, Tree::String(one)), (bk, Tree::String(x))]);
    let t1 = Tree::Table(seq![(ak, Tree::String(one)), (bk, Tree::String(y))]);
    let t2 = Tree::Table(seq![(ak, Tree::String(one)), (bk, Tree::String(z))]);
    let tf = Tree::Table(seq![(ak, Tree::String(one)), (bk, Tree::String(w))]);
    let ev = env_vals(env);

    // what each namespace resolves to
    let pairs = env_view(env);
    assert(pairs.first() == ("ENV_VAR"@, "2"@));
    assert(env_find(pairs, "ENV_VAR"@) == 0);
    assert(ev("ENV_VAR"@) == "2"@);
    lemma_path_value_first_entry(ak, one, bk, Tree::String(x));
    lemma_path_value_first_entry(ak, one, bk, Tree::String(y));
    lemma_path_value_first_entry(ak, one, bk, Tree::String(z));
    lemma_path_value_first_entry(ak, one, bk, Tree::String(w));
    assert(path_vals(t0)(ak) == one);
    assert(path_vals(t1)(ak) == one);
    assert(path_vals(t2)(ak) == one);
    assert(path_vals(tf)(ak) == one);

    // the four string passes, and the strings without placeholders
    lemma_walk_env_chain(ev);
    lemma_walk_path_chain(path_vals(t0));
    lemma_walk_path_rest(path_vals(t1));
    lemma_walk_env_rest(ev);
    lemma_subst_str_no_dollar(one, false, ev);
    lemma_subst_str_no_dollar(one, true, path_vals(t0));
    lemma_subst_str_no_dollar(one, true, path_vals(t1));
    lemma_subst_str_no_dollar(one, true, path_vals(tf));
    lemma_subst_str_no_dollar(w, false, ev);
    lemma_subst_str_no_dollar(w, true, path_vals(tf));

    // the four changed stages and the two unchanged ones, table by table
    lemma_subst_two_string_table(ak, one, bk, x, false, ev);
    lemma_subst_two_string_table(ak, one, bk, x, true, path_vals(t0));
    lemma_subst_two_string_table(ak, one, bk, y, true, path_vals(t1));
    lemma_subst_two_string_table(ak, one, bk, z, false, ev);
    lemma_subst_two_string_table(ak, one, bk, w, false, ev);
    lemma_subst_two_string_table(ak, one, bk, w, true, path_vals(tf));
    assert(subst_tree(t0, false, ev) == t1);
    assert(subst_tree(t0, true, path_vals(t0)) == t2);
    assert(subst_tree(t1, true, path_vals(t1)) == tf);
    assert(subst_tree(t2, false, ev) == tf);
    assert(subst_tree(tf, false, ev) == tf);
    assert(subst_tree(tf, true, path_vals(tf)) == tf);
    assert(y != x && z != x && w != y && w != z);
    assert(!subst_tree_unchanged(t0, false, ev));
    assert(!subst_tree_unchanged(t0, true, path_vals(t0)));
    assert(!subst_tree_unchanged(t1, true, path_vals(t1)));
    assert(!subst_tree_unchanged(t2, false, ev));
    assert(subst_tree_unchanged(tf, false, ev));
    assert(subst_tree_unchanged(tf, true, path_vals(tf)));

    // the rounds, in both orders
    let pa = seq![ProcessorKind::EnvironmentVariable, ProcessorKind::PathVariable];
    let pb = seq![ProcessorKind::PathVariable, ProcessorKind::EnvironmentVariable];
    assert(run_stages(tf, pa, env, 2) == (tf, false));
    assert(run_stages(tf, pa, env, 1) == (tf, false));
    assert(run_stages(tf, pa, env, 0) == (tf, false));
    assert(run_stages(tf, pb, env, 2) == (tf, false));
    assert(run_stages(tf, pb, env, 1) == (tf, false));
    assert(run_stages(tf, pb, env, 0) == (tf, false));
    assert(run_stages(t1, pa, env, 2) == (t1, false));
    assert(stage_tree(t1, pa[1], env) == tf);
    assert(run_stages(t1, pa, env, 1) == (tf, true));
    assert(stage_tree(t0, pa[0], env) == t1);
    assert(run_stages(t0, pa, env, 0) == (tf, true));
    assert(run_stages(t2, pb, env, 2) == (t2, false));
    assert(stage_tree(t2, pb[1], env) == tf);
    assert(run_stages(t2, pb, env, 1) == (tf, true));
    assert(stage_tree(t0, pb[0], env) == t2);
    assert(run_stages(t0, pb, env, 0) == (tf, true));

    // the fixed point, under either order
    assert(run_passes(tf, pa, env, (fuel - 1) as nat) == Some(tf));
    assert(run_passes(t0, pa, env, fuel) == Some(tf));
    assert(run_passes(tf, pb, env, (fuel - 1) as nat) == Some(tf));
    assert(run_passes(t0, pb, env, fuel) == Some(tf));
}

/// Law: the whole pipeline keeps the tree well-formed: whatever tree it
/// settles on still has pairwise distinct keys in every table.
pub proof fn lemma_pipeline_preserves_wf(
    t: Tree,
    procs: Seq<ProcessorKind>,
    env: Seq<(String, String)>,
    fuel: nat,
)
    requires
        tree_wf(t),
        run_passes(t, procs, env, fuel) is Some,
    ensures
        tree_wf(run_passes(t, procs, env, fuel)->Some_0),
    decreases fuel,
{
    let pass = run_pass(t, procs, env);
    if pass.1 && fuel > 0 {
        lemma_stages_preserve_wf(t, procs, env, 0);
        lemma_pipeline_preserves_wf(pass.0, procs, env, (fuel - 1) as nat);
    }
}

proof fn lemma_stages_preserve_wf(
    t: Tree,
    procs: Seq<ProcessorKind>,
    env: Seq<(String, String)>,
    i: nat,
)
    requires
        tree_wf(t),
    ensures
        tree_wf(run_stages(t, procs, env, i).0),
    decreases procs.len() - i,
{
    if i < procs.len() {
        match procs[i as int] {
            ProcessorKind::EnvironmentVariable => {
                lemma_subst_preserves_wf(t, false, env_vals(env));
            },
            ProcessorKind::PathVariable => {
                lemma_subst_preserves_wf(t, true, path_vals(t));
            },
        }
        lemma_stages_preserve_wf(stage_tree(t, procs[i as int], env), procs, env, i + 1);
    }
}

fn char_is_letter(c: char, path_mode: bool) -> (b: bool)
    ensures
        b == name_letter(c, path_mode),
{
    if path_mode {
        'a' <= c && c <= 'z'
    } else {
        'A' <= c && c <= 'Z'
    }
}

fn char_is_joiner(c: char, path_mode: bool) -> (b: bool)
    ensures
        b == name_joiner(c, path_mode),
{
    c == '_' || (path_mode && c == '.')
}

/// Whether the characters of `s` from `lo` up to `hi` form a well-formed
/// placeholder name.
#[verifier::loop_isolation(false)]
fn check_name(s: &str, lo: usize, hi: usize, path_mode: bool) -> (b: bool)
    requires
        lo <= hi <= s@.len(),
    ensures
        b == is_name(s@.subrange(lo as int, hi as int), path_mode),
{
    let ghost sub = s@.subrange(lo as int, hi as int);
    if lo == hi {
        return false;
    }
    if !char_is_letter(s.get_char(lo), path_mode) {
        assert(sub[0] == s@[lo as int]);
        return false;
    }
    let mut k = lo;
    while k < hi
        invariant
            lo <= k <= hi,
            forall|t: int|
                0 <= t < k - lo ==> (name_letter(#[trigger] sub[t], path_mode) || (name_joiner(
                    sub[t],
                    path_mode,
                ) && t + 1 < sub.len() && name_letter(sub[t + 1], path_mode))),
        decreases hi - k,
    {
        let c = s.get_char(k);
        proof {
            assert(sub[k - lo] == s@[k as int]);
        }
        if char_is_letter(c, path_mode) {
        } else if char_is_joiner(c, path_mode) {
            if k + 1 < hi && char_is_letter(s.get_char(k + 1), path_mode) {
                proof {
                    assert(sub[k + 1 - lo] == s@[k + 1 as int]);
                }
            } else {
                proof {
                    if k + 1 < hi {
                        assert(sub[k + 1 - lo] == s@[k + 1 as int]);
                    }
                    assert(!is_name(sub, path_mode)) by {
                        if is_name(sub, path_mode) {
                            assert(name_letter(sub[k - lo], path_mode) || (name_joiner(
                                sub[k - lo],
                                path_mode,
                            ) && k - lo + 1 < sub.len() && name_letter(
                                sub[k - lo + 1],
                                path_mode,
                            )));
                        }
                    }
                }
                return false;
            }
        } else {
            proof {
                assert(!is_name(sub, path_mode)) by {
                    if is_name(sub, path_mode) {
                        assert(name_letter(sub[k - lo], path_mode) || name_joiner(
                            sub[k - lo],
                            path_mode,
                        ));
                    }
                }
            }
            return false;
        }
        k += 1;
    }
    proof {
        assert(sub[0] == s@[lo as int]);
    }
    true
}

/// Looks for a placeholder starting exactly at index `i`: returns the index
/// of its closing brace if one stands there.
#[verifier::loop_isolation(false)]
fn try_match(s: &str, n: usize, i: usize, path_mode: bool) -> (r: Option<usize>)
    requires
        n == s@.len(),
        i < n,
    ensures
        match r {
            Some(j) => i < j < n && match_at_start(s@.skip(i as int), path_mode) && match_end_at(
                s@.skip(i as int),
                j - i,
                path_mode,
            ),
            None => !match_at_start(s@.skip(i as int), path_mode),
        },
{
    let ghost suf = s@.skip(i as int);
    proof {
        assert(suf.len() == n - i);
        assert(forall|t: int| 0 <= t < suf.len() ==> suf[t] == s@[i + t]);
    }
    if n - i < 4 {
        return None;
    }
    if s.get_char(i) != '$' || s.get_char(i + 1) != '{' {
        return None;
    }
    let mut j = i + 2;
    while j < n && char_is_name(s, j, path_mode)
        invariant
            i + 2 <= j <= n,
            forall|t: int| 2 <= t < j - i ==> name_char(#[trigger] suf[t], path_mode),
        decreases n - j,
    {
        j += 1;
    }
    proof {
        lemma_scan_match_end(suf, j - i, path_mode);
    }
    if j >= n || s.get_char(j) != '}' {
        proof {
            assert forall|j2: int| !match_end_at(suf, j2, path_mode) by {
                if match_end_at(suf, j2, path_mode) {
                    assert(j2 == j - i);
                    assert(suf[j2] == '}');
                }
            }
        }
        return None;
    }
    if check_name(s, i + 2, j, path_mode) {
        proof {
            assert(suf.subrange(2, j - i) =~= s@.subrange(i + 2, j as int));
            assert(suf[j - i] == s@[j as int]);
            assert(match_end_at(suf, j - i, path_mode));
        }
        Some(j)
    } else {
        proof {
            assert(suf.subrange(2, j - i) =~= s@.subrange(i + 2, j as int));
            assert forall|j2: int| !match_end_at(suf, j2, path_mode) by {
                if match_end_at(suf, j2, path_mode) {
                    assert(j2 == j - i);
                    assert(is_name(suf.subrange(2, j - i), path_mode));
                }
            }
        }
        None
    }
}

/// Reads one character and tests whether it may stand inside a name.
fn char_is_name(s: &str, j: usize, path_mode: bool) -> (b: bool)
    requires
        j < s@.len(),
    ensures
        b == name_char(s@[j as int], path_mode),
{
    let c = s.get_char(j);
    char_is_letter(c, path_mode) || char_is_joiner(c, path_mode)
}

/// After a scan of name characters that stopped at position `stop` (relative
/// to the suffix), a placeholder can end at `stop` and nowhere else: earlier
/// positions hold name characters, no brace, and a later end would need a
/// name character at `stop`.
proof fn lemma_scan_match_end(suf: Seq<char>, stop: int, path_mode: bool)
    requires
        2 <= stop <= suf.len(),
        forall|t: int| 2 <= t < stop ==> name_char(#[trigger] suf[t], path_mode),
        stop < suf.len() ==> !name_char(suf[stop], path_mode),
    ensures
        forall|j2: int| match_end_at(suf, j2, path_mode) ==> j2 == stop,
{
    assert forall|j2: int| match_end_at(suf, j2, path_mode) implies j2 == stop by {
        if j2 < stop {
            assert(name_char(suf[j2], path_mode));
            assert(suf[j2] == '}');
        }
        if j2 > stop {
            assert(stop < suf.len());
            let sub = suf.subrange(2, j2);
            assert(sub[stop - 2] == suf[stop]);
            assert(name_letter(sub[stop - 2], path_mode) || name_joiner(sub[stop - 2], path_mode));
        }
    }
}

/// The environment snapshot, as pairs of name and value in sequence form.
pub open spec fn env_view(env: Seq<(String, String)>) -> Seq<(Seq<char>, Seq<char>)> {
    Seq::new(env.len(), |i: int| (env[i].0@, env[i].1@))
}

/// The index of the first pair whose name matches, or -1 if none does.
pub open spec fn env_find(pairs: Seq<(Seq<char>, Seq<char>)>, name: Seq<char>) -> int
    decreases pairs,
{
    if pairs.len() == 0 {
        -1
    } else if pairs.first().0 == name {
        0
    } else {
        let rest = env_find(pairs.drop_first(), name);
        if rest < 0 {
            -1
        } else {
            rest + 1
        }
    }
}

/// The value of the named variable, or the empty string if it is absent.
pub open spec fn env_lookup(pairs: Seq<(Seq<char>, Seq<char>)>, name: Seq<char>) -> Seq<char> {
    let j = env_find(pairs, name);
    if j >= 0 {
        pairs[j].1
    } else {
        Seq::empty()
    }
}

pub proof fn lemma_env_find(pairs: Seq<(Seq<char>, Seq<char>)>, name: Seq<char>)
    ensures
        env_find(pairs, name) == -1 ==> forall|i: int|
            0 <= i < pairs.len() ==> (#[trigger] pairs[i]).0 != name,
        env_find(pairs, name) != -1 ==> {
            let j = env_find(pairs, name);
            &&& 0 <= j < pairs.len()
            &&& pairs[j].0 == name
            &&& forall|i: int| 0 <= i < j ==> (#[trigger] pairs[i]).0 != name
        },
    decreases pairs,
{
    if pairs.len() > 0 && pairs.first().0 != name {
        lemma_env_find(pairs.drop_first(), name);
        let rest = env_find(pairs.drop_first(), name);
        assert(env_find(pairs, name) == if rest < 0 { -1int } else { rest + 1 });
        if rest == -1 {
            assert forall|i: int| 0 <= i < pairs.len() implies (#[trigger] pairs[i]).0 != name by {
                if i > 0 {
                    assert(pairs.drop_first()[i - 1] == pairs[i]);
                }
            }
        } else {
            assert(pairs.drop_first()[rest] == pairs[rest + 1]);
            assert forall|i: int| 0 <= i < rest + 1 implies (#[trigger] pairs[i]).0 != name by {
                if i > 0 {
                    assert(pairs.drop_first()[i - 1] == pairs[i]);
                }
            }
        }
    }
}

/// What an environment placeholder resolves to: the variable's value, the
/// empty string if it is unset.
pub open spec fn env_vals(env: Seq<(String, String)>) -> spec_fn(Seq<char>) -> Seq<char> {
    |name: Seq<char>| env_lookup(env_view(env), name)
}

/// Linear search of the environment snapshot; the first binding wins, an
/// absent name gives the empty string.
#[verifier::loop_isolation(false)]
fn env_get(env: &Vec<(String, String)>, name: &String) -> (r: String)
    ensures
        r@ == env_lookup(env_view(env@), name@),
{
    let ghost pairs = env_view(env@);
    proof {
        lemma_env_find(pairs, name@);
    }
    let mut i: usize = 0;
    while i < env.len()
        invariant
            i <= env@.len(),
            forall|k: int| 0 <= k < i ==> (#[trigger] pairs[k]).0 != name@,
        decreases env@.len() - i,
    {
        if env[i].0 == *name {
            proof {
                assert(pairs[i as int].0 == name@);
            }
            return env[i].1.clone();
        }
        proof {
            assert(pairs[i as int].0 == env@[i as int].0@);
        }
        i += 1;
    }
    String::new()
}

/// Replaces every environment placeholder in one string, left to right, by
/// the named variable's value from the snapshot; reports whether the text
/// changed.
#[verifier::loop_isolation(false)]
fn env_subst_string(s: &str, env: &Vec<(String, String)>) -> (r: (String, bool))
    ensures
        r.0@ == subst_str(s@, false, env_vals(env@)),
        r.1 == (r.0@ != s@),
{
    let ghost vals = env_vals(env@);
    let n = s.unicode_len();
    let mut out = String::new();
    let mut i: usize = 0;
    proof {
        assert(s@.skip(0) =~= s@);
        assert(Seq::<char>::empty() + subst_str(s@, false, vals) =~= subst_str(s@, false, vals));
    }
    while i < n
        invariant
            i <= n,
            n == s@.len(),
            subst_str(s@, false, vals) == out@ + subst_str(s@.skip(i as int), false, vals),
        decreases n - i,
    {
        let ghost out_before = out@;
        let ghost suf = s@.skip(i as int);
        proof {
            assert(forall|t: int| 0 <= t < suf.len() ==> suf[t] == s@[i + t]);
        }
        match try_match(s, n, i, false) {
            Some(j) => {
                let name = s.substring_char(i + 2, j).to_owned();
                let rep = env_get(env, &name);
                out.append(rep.as_str());
                proof {
                    assert(match_end_at(suf, j - i, false));
                    assert(match_at_start(suf, false));
                    lemma_match_end_unique(suf, match_end(suf, false), j - i, false);
                    assert(suf.subrange(2, j - i) =~= s@.subrange(i + 2, j as int));
                    assert(suf.skip(j - i + 1) =~= s@.skip(j + 1));
                    assert(subst_str(suf, false, vals) == vals(name@) + subst_str(
                        s@.skip(j + 1),
                        false,
                        vals,
                    ));
                    assert(out_before + (rep@ + subst_str(s@.skip(j + 1), false, vals)) =~= (
                    out_before + rep@) + subst_str(s@.skip(j + 1), false, vals));
                }
                i = j + 1;
            },
            None => {
                let piece = s.substring_char(i, i + 1);
                out.append(piece);
                proof {
                    assert(piece@ =~= seq![suf[0]]);
                    assert(suf.skip(1) =~= s@.skip(i + 1));
                    assert(subst_str(suf, false, vals) == seq![suf[0]] + subst_str(
                        s@.skip(i + 1),
                        false,
                        vals,
                    ));
                    assert(out_before + (piece@ + subst_str(s@.skip(i + 1), false, vals)) =~= (
                    out_before + piece@) + subst_str(s@.skip(i + 1), false, vals));
                }
                i += 1;
            },
        }
    }
    proof {
        assert(s@.skip(n as int) =~= Seq::<char>::empty());
        assert(out@ + subst_str(Seq::<char>::empty(), false, vals) =~= out@);
    }
    let original = s.to_owned();
    let changed = !(out == original);
    (out, changed)
}

/// Rewrites every string leaf of the value against the environment snapshot,
/// depth first; reports whether anything changed.
#[verifier::loop_isolation(false)]
fn env_subst_value(t: &Value, env: &Vec<(String, String)>) -> (r: (Value, bool))
    ensures
        r.0@ == subst_tree(t@, false, env_vals(env@)),
        r.1 == !subst_tree_unchanged(t@, false, env_vals(env@)),
    decreases *t,
{
    let ghost vals = env_vals(env@);
    match t {
        Value::String(s) => {
            let (ns, ch) = env_subst_string(s.as_str(), env);
            (Value::String(ns), ch)
        },
        Value::Integer(x) => (Value::Integer(*x), false),
        Value::Float(bits) => (Value::Float(*bits), false),
        Value::Boolean(b) => (Value::Boolean(*b), false),
        Value::Datetime(s) => (Value::Datetime(s.clone()), false),
        Value::Array(es) => {
            let mut out: Vec<Value> = Vec::new();
            let mut changed = false;
            let mut i: usize = 0;
            while i < es.len()
                invariant
                    i <= es@.len(),
                    out@.len() == i,
                    forall|k: int|
                        0 <= k < i ==> (#[trigger] out@[k])@ == subst_tree(es@[k]@, false, vals),
                    changed == !(forall|k: int|
                        0 <= k < i ==> subst_tree_unchanged(#[trigger] es@[k]@, false, vals)),
                decreases es@.len() - i,
            {
                proof {
                    assert(decreases_to!(*t => t->Array_0));
                    assert(decreases_to!(t->Array_0 => t->Array_0@));
                    assert(decreases_to!(t->Array_0@ => t->Array_0@[i as int]));
                }
                let (nv, ch) = env_subst_value(&es[i], env);
                out.push(nv);
                changed = changed || ch;
                i += 1;
            }
            proof {
                lemma_view_list(out@);
                lemma_view_list(es@);
                lemma_subst_list_index(view_list(es@), false, vals);
                assert forall|k: int| 0 <= k < es@.len() implies view_list(out@)[k] == subst_list(
                    view_list(es@),
                    false,
                    vals,
                )[k] by {
                    assert(out@[k]@ == subst_tree(es@[k]@, false, vals));
                    assert(view_list(es@)[k] == es@[k]@);
                }
                assert(view_list(out@) =~= subst_list(view_list(es@), false, vals));
                assert forall|k: int|
                    0 <= k < es@.len() implies (subst_tree_unchanged(
                    #[trigger] view_list(es@)[k],
                    false,
                    vals,
                ) <==> subst_tree_unchanged(es@[k]@, false, vals)) by {
                    assert(view_list(es@)[k] == es@[k]@);
                }
                assert(changed == !subst_list_unchanged(view_list(es@), false, vals));
            }
            (Value::Array(out), changed)
        },
        Value::Table(es) => {
            let mut out: Vec<(String, Value)> = Vec::new();
            let mut changed = false;
            let mut i: usize = 0;
            while i < es.len()
                invariant
                    i <= es@.len(),
                    out@.len() == i,
                    forall|k: int|
                        0 <= k < i ==> (#[trigger] out@[k]).0@ == es@[k].0@ && out@[k].1@
                            == subst_tree(es@[k].1@, false, vals),
                    changed == !(forall|k: int|
                        0 <= k < i ==> subst_tree_unchanged(#[trigger] es@[k].1@, false, vals)),
                decreases es@.len() - i,
            {
                proof {
                    assert(decreases_to!(*t => t->Table_0));
                    assert(decreases_to!(t->Table_0 => t->Table_0@));
                    assert(decreases_to!(t->Table_0@ => t->Table_0@[i as int]));
                    assert(decreases_to!(t->Table_0@[i as int] => t->Table_0@[i as int].1));
                }
                let (key, val) = &es[i];
                let (nv, ch) = env_subst_value(val, env);
                out.push((key.clone(), nv));
                changed = changed || ch;
                i += 1;
            }
            proof {
                lemma_view_entries(out@);
                lemma_view_entries(es@);
                lemma_subst_entries_index(view_entries(es@), false, vals);
                assert forall|k: int| 0 <= k < es@.len() implies view_entries(out@)[k]
                    == subst_entries(view_entries(es@), false, vals)[k] by {
                    assert(out@[k].0@ == es@[k].0@);
                    assert(out@[k].1@ == subst_tree(es@[k].1@, false, vals));
                    assert(view_entries(es@)[k] == (es@[k].0@, es@[k].1@));
                }
                assert(view_entries(out@) =~= subst_entries(view_entries(es@), false, vals));
                if changed {
                    if subst_entries_unchanged(view_entries(es@), false, vals) {
                        assert forall|k: int| 0 <= k < es@.len() implies subst_tree_unchanged(
                            #[trigger] es@[k].1@,
                            false,
                            vals,
                        ) by {
                            assert(view_entries(es@)[k] == (es@[k].0@, es@[k].1@));
                            assert(subst_tree_unchanged(view_entries(es@)[k].1, false, vals));
                        }
                        assert(false);
                    }
                } else {
                    assert forall|k: int|
                        0 <= k < view_entries(es@).len() implies subst_tree_unchanged(
                        (#[trigger] view_entries(es@)[k]).1,
                        false,
                        vals,
                    ) by {
                        assert(view_entries(es@)[k] == (es@[k].0@, es@[k].1@));
                    }
                }
                assert(changed == !subst_entries_unchanged(view_entries(es@), false, vals));
            }
            (Value::Table(out), changed)
        },
    }
}

/// Replaces `${NAME}` placeholders in every string leaf by the named
/// variable's value from an explicit environment snapshot, or by the empty
/// string where the variable is absent.
pub struct EnvironmentVariableProcessor;

impl EnvironmentVariableProcessor {
    /// One pass over the tree: returns the rewritten tree and whether any
    /// string changed.
    pub fn process(&self, tree: &Value, env: &Vec<(String, String)>) -> (r: (Value, bool))
        ensures
            r.0@ == subst_tree(tree@, false, env_vals(env@)),
            r.1 == !subst_tree_unchanged(tree@, false, env_vals(env@)),
    {
        env_subst_value(tree, env)
    }
}

/// Looks a dotted path up in a table-rooted tree: splits it on dots and
/// descends one nested table per segment.
#[verifier::loop_isolation(false)]
fn get_value_by_path<'a>(root: &'a Value, path: &str) -> (r: Option<&'a Value>)
    ensures
        match r {
            Some(v) => tree_get(root@, split_on(path@, '.')) == Some(v@),
            None => tree_get(root@, split_on(path@, '.')) is None,
        },
{
    let segments = split_string(path, '.');
    let ghost segs = split_on(path@, '.');
    let mut cur: &Value = root;
    let mut idx: usize = 0;
    proof {
        assert(segs.skip(0) =~= segs);
    }
    while idx < segments.len()
        invariant
            idx <= segments@.len(),
            strs_view(segments@) == segs,
            tree_get(root@, segs) == tree_get(cur@, segs.skip(idx as int)),
        decreases segments@.len() - idx,
    {
        let ghost rest = segs.skip(idx as int);
        proof {
            assert(rest.first() == segs[idx as int]);
            assert(segs[idx as int] == segments@[idx as int]@);
        }
        match cur {
            Value::Table(es) => {
                match find_entry(es, &segments[idx]) {
                    Some(j) => {
                        proof {
                            crate::value::lemma_view_entries(es@);
                            assert(find_key(view_entries(es@), rest.first()) == j as int);
                            assert(view_entries(es@)[j as int].1 == es@[j as int].1@);
                            assert(rest.drop_first() =~= segs.skip(idx + 1));
                        }
                        cur = &es[j].1;
                    },
                    None => {
                        return None;
                    },
                }
            },
            _ => {
                return None;
            },
        }
        idx += 1;
    }
    proof {
        assert(segs.skip(segments@.len() as int) =~= Seq::<Seq<char>>::empty());
    }
    Some(cur)
}

/// What a path placeholder resolves to: the string at that dotted path in the
/// tree, the empty string where the path is absent or does not name a string.
pub open spec fn path_value(root: Tree, p: Seq<char>) -> Seq<char> {
    match tree_get(root, split_on(p, '.')) {
        Some(Tree::String(v)) => v,
        _ => Seq::empty(),
    }
}

pub open spec fn path_vals(root: Tree) -> spec_fn(Seq<char>) -> Seq<char> {
    |p: Seq<char>| path_value(root, p)
}

/// Resolves one dotted path against the root, as [`path_value`] states.
fn path_get(root: &Value, name: &String) -> (r: String)
    ensures
        r@ == path_value(root@, name@),
{
    match get_value_by_path(root, name.as_str()) {
        Some(v) => match v {
            Value::String(s) => s.clone(),
            _ => String::new(),
        },
        None => String::new(),
    }
}

/// Replaces every path placeholder in one string against the root snapshot;
/// reports whether the text changed.
#[verifier::loop_isolation(false)]
fn path_subst_string(s: &str, root: &Value) -> (r: (String, bool))
    ensures
        r.0@ == subst_str(s@, true, path_vals(root@)),
        r.1 == (r.0@ != s@),
{
    let ghost vals = path_vals(root@);
    let n = s.unicode_len();
    let mut out = String::new();
    let mut i: usize = 0;
    proof {
        assert(s@.skip(0) =~= s@);
        assert(Seq::<char>::empty() + subst_str(s@, true, vals) =~= subst_str(s@, true, vals));
    }
    while i < n
        invariant
            i <= n,
            n == s@.len(),
            subst_str(s@, true, vals) == out@ + subst_str(s@.skip(i as int), true, vals),
        decreases n - i,
    {
        let ghost out_before = out@;
        let ghost suf = s@.skip(i as int);
        proof {
            assert(forall|t: int| 0 <= t < suf.len() ==> suf[t] == s@[i + t]);
        }
        match try_match(s, n, i, true) {
            Some(j) => {
                let name = s.substring_char(i + 2, j).to_owned();
                let rep = path_get(root, &name);
                out.append(rep.as_str());
                proof {
                    assert(match_end_at(suf, j - i, true));
                    assert(match_at_start(suf, true));
                    lemma_match_end_unique(suf, match_end(suf, true), j - i, true);
                    assert(suf.subrange(2, j - i) =~= s@.subrange(i + 2, j as int));
                    assert(suf.skip(j - i + 1) =~= s@.skip(j + 1));
                    assert(subst_str(suf, true, vals) == vals(name@) + subst_str(
                        s@.skip(j + 1),
                        true,
                        vals,
                    ));
                    assert(out_before + (rep@ + subst_str(s@.skip(j + 1), true, vals)) =~= (
                    out_before + rep@) + subst_str(s@.skip(j + 1), true, vals));
                }
                i = j + 1;
            },
            None => {
                let piece = s.substring_char(i, i + 1);
                out.append(piece);
                proof {
                    assert(piece@ =~= seq![suf[0]]);
                    assert(suf.skip(1) =~= s@.skip(i + 1));
                    assert(subst_str(suf, true, vals) == seq![suf[0]] + subst_str(
                        s@.skip(i + 1),
                        true,
                        vals,
                    ));
                    assert(out_before + (piece@ + subst_str(s@.skip(i + 1), true, vals)) =~= (
                    out_before + piece@) + subst_str(s@.skip(i + 1), true, vals));
                }
                i += 1;
            },
        }
    }
    proof {
        assert(s@.skip(n as int) =~= Seq::<char>::empty());
        assert(out@ + subst_str(Seq::<char>::empty(), true, vals) =~= out@);
    }
    let original = s.to_owned();
    let changed = !(out == original);
    (out, changed)
}

/// Rewrites every string leaf of the value against the root snapshot, depth
/// first; reports whether anything changed.
#[verifier::loop_isolation(false)]
fn path_subst_value(t: &Value, root: &Value) -> (r: (Value, bool))
    ensures
        r.0@ == subst_tree(t@, true, path_vals(root@)),
        r.1 == !subst_tree_unchanged(t@, true, path_vals(root@)),
    decreases *t,
{
    let ghost vals = path_vals(root@);
    match t {
        Value::String(s) => {
            let (ns, ch) = path_subst_string(s.as_str(), root);
            (Value::String(ns), ch)
        },
        Value::Integer(x) => (Value::Integer(*x), false),
        Value::Float(bits) => (Value::Float(*bits), false),
        Value::Boolean(b) => (Value::Boolean(*b), false),
        Value::Datetime(s) => (Value::Datetime(s.clone()), false),
        Value::Array(es) => {
            let mut out: Vec<Value> = Vec::new();
            let mut changed = false;
            let mut i: usize = 0;
            while i < es.len()
                invariant
                    i <= es@.len(),
                    out@.len() == i,
                    forall|k: int|
                        0 <= k < i ==> (#[trigger] out@[k])@ == subst_tree(es@[k]@, true, vals),
                    changed == !(forall|k: int|
                        0 <= k < i ==> subst_tree_unchanged(#[trigger] es@[k]@, true, vals)),
                decreases es@.len() - i,
            {
                proof {
                    assert(decreases_to!(*t => t->Array_0));
                    assert(decreases_to!(t->Array_0 => t->Array_0@));
                    assert(decreases_to!(t->Array_0@ => t->Array_0@[i as int]));
                }
                let (nv, ch) = path_subst_value(&es[i], root);
                out.push(nv);
                changed = changed || ch;
                i += 1;
            }
            proof {
                lemma_view_list(out@);
                lemma_view_list(es@);
                lemma_subst_list_index(view_list(es@), true, vals);
                assert forall|k: int| 0 <= k < es@.len() implies view_list(out@)[k] == subst_list(
                    view_list(es@),
                    true,
                    vals,
                )[k] by {
                    assert(out@[k]@ == subst_tree(es@[k]@, true, vals));
                    assert(view_list(es@)[k] == es@[k]@);
                }
                assert(view_list(out@) =~= subst_list(view_list(es@), true, vals));
                if changed {
                    if subst_list_unchanged(view_list(es@), true, vals) {
                        assert forall|k: int| 0 <= k < es@.len() implies subst_tree_unchanged(
                            #[trigger] es@[k]@,
                            true,
                            vals,
                        ) by {
                            assert(view_list(es@)[k] == es@[k]@);
                            assert(subst_tree_unchanged(view_list(es@)[k], true, vals));
                        }
                        assert(false);
                    }
                } else {
                    assert forall|k: int|
                        0 <= k < view_list(es@).len() implies subst_tree_unchanged(
                        #[trigger] view_list(es@)[k],
                        true,
                        vals,
                    ) by {
                        assert(view_list(es@)[k] == es@[k]@);
                    }
                }
                assert(changed == !subst_list_unchanged(view_list(es@), true, vals));
            }
            (Value::Array(out), changed)
        },
        Value::Table(es) => {
            let mut out: Vec<(String, Value)> = Vec::new();
            let mut changed = false;
            let mut i: usize = 0;
            while i < es.len()
                invariant
                    i <= es@.len(),
                    out@.len() == i,
                    forall|k: int|
                        0 <= k < i ==> (#[trigger] out@[k]).0@ == es@[k].0@ && out@[k].1@
                            == subst_tree(es@[k].1@, true, vals),
                    changed == !(forall|k: int|
                        0 <= k < i ==> subst_tree_unchanged(#[trigger] es@[k].1@, true, vals)),
                decreases es@.len() - i,
            {
                proof {
                    assert(decreases_to!(*t => t->Table_0));
                    assert(decreases_to!(t->Table_0 => t->Table_0@));
                    assert(decreases_to!(t->Table_0@ => t->Table_0@[i as int]));
                    assert(decreases_to!(t->Table_0@[i as int] => t->Table_0@[i as int].1));
                }
                let (key, val) = &es[i];
                let (nv, ch) = path_subst_value(val, root);
                out.push((key.clone(), nv));
                changed = changed || ch;
                i += 1;
            }
            proof {
                lemma_view_entries(out@);
                lemma_view_entries(es@);
                lemma_subst_entries_index(view_entries(es@), true, vals);
                assert forall|k: int| 0 <= k < es@.len() implies view_entries(out@)[k]
                    == subst_entries(view_entries(es@), true, vals)[k] by {
                    assert(out@[k].0@ == es@[k].0@);
                    assert(out@[k].1@ == subst_tree(es@[k].1@, true, vals));
                    assert(view_entries(es@)[k] == (es@[k].0@, es@[k].1@));
                }
                assert(view_entries(out@) =~= subst_entries(view_entries(es@), true, vals));
                if changed {
                    if subst_entries_unchanged(view_entries(es@), true, vals) {
                        assert forall|k: int| 0 <= k < es@.len() implies subst_tree_unchanged(
                            #[trigger] es@[k].1@,
                            true,
                            vals,
                        ) by {
                            assert(view_entries(es@)[k] == (es@[k].0@, es@[k].1@));
                            assert(subst_tree_unchanged(view_entries(es@)[k].1, true, vals));
                        }
                        assert(false);
                    }
                } else {
                    assert forall|k: int|
                        0 <= k < view_entries(es@).len() implies subst_tree_unchanged(
                        (#[trigger] view_entries(es@)[k]).1,
                        true,
                        vals,
                    ) by {
                        assert(view_entries(es@)[k] == (es@[k].0@, es@[k].1@));
                    }
                }
                assert(changed == !subst_entries_unchanged(view_entries(es@), true, vals));
            }
            (Value::Table(out), changed)
        },
    }
}

/// Replaces `${a.b}` placeholders in every string leaf by the string found at
/// that dotted path in the tree as it stood when the pass began, or by the
/// empty string where the path is absent or names no string.
pub struct PathVariableProcessor;

impl PathVariableProcessor {
    /// One pass over the tree, resolving every path against the tree as it
    /// was handed in: returns the rewritten tree and whether any string
    /// changed.
    pub fn process(&self, tree: &Value) -> (r: (Value, bool))
        ensures
            r.0@ == subst_tree(tree@, true, path_vals(tree@)),
            r.1 == !subst_tree_unchanged(tree@, true, path_vals(tree@)),
    {
        path_subst_value(tree, tree)
    }
}

/// The two built-in tree-rewriting passes, in the tagged form that the
/// pipeline driver runs; registration order is the order of the vector
/// handed to [`run_pipeline`].
#[derive(Clone, Copy, Debug, PartialEq, Eq)]
pub enum ProcessorKind {
    EnvironmentVariable,
    PathVariable,
}

/// The pipeline hit its pass cap while passes were still changing the tree:
/// some placeholders, typically a reference cycle, cannot be resolved.
#[derive(Debug, PartialEq)]
pub struct UnresolvedPlaceholders;

/// The tree after one processor runs once over it.
pub open spec fn stage_tree(t: Tree, p: ProcessorKind, env: Seq<(String, String)>) -> Tree {
    match p {
        ProcessorKind::EnvironmentVariable => subst_tree(t, false, env_vals(env)),
        ProcessorKind::PathVariable => subst_tree(t, true, path_vals(t)),
    }
}

/// Whether one processor, run once, would leave the tree as it is.
pub open spec fn stage_unchanged(t: Tree, p: ProcessorKind, env: Seq<(String, String)>) -> bool {
    match p {
        ProcessorKind::EnvironmentVariable => subst_tree_unchanged(t, false, env_vals(env)),
        ProcessorKind::PathVariable => subst_tree_unchanged(t, true, path_vals(t)),
    }
}

/// One round of the pipeline from stage `i` on: each processor runs once, in
/// order, over the tree the one before left; the flag says whether any stage
/// changed anything.
pub open spec fn run_stages(
    t: Tree,
    procs: Seq<ProcessorKind>,
    env: Seq<(String, String)>,
    i: nat,
) -> (Tree, bool)
    decreases procs.len() - i,
{
    if i >= procs.len() {
        (t, false)
    } else {
        let t2 = stage_tree(t, procs[i as int], env);
        let ch = !stage_unchanged(t, procs[i as int], env);
        let rest = run_stages(t2, procs, env, i + 1);
        (rest.0, ch || rest.1)
    }
}

/// One full round of all processors, in registration order.
pub open spec fn run_pass(t: Tree, procs: Seq<ProcessorKind>, env: Seq<(String, String)>) -> (
    Tree,
    bool,
) {
    run_stages(t, procs, env, 0)
}

/// Rounds repeat until one changes nothing; `None` if the given number of
/// further rounds does not reach that fixed point.
pub open spec fn run_passes(
    t: Tree,
    procs: Seq<ProcessorKind>,
    env: Seq<(String, String)>,
    fuel: nat,
) -> Option<Tree>
    decreases fuel,
{
    let pass = run_pass(t, procs, env);
    if !pass.1 {
        Some(t)
    } else if fuel == 0 {
        None
    } else {
        run_passes(pass.0, procs, env, (fuel - 1) as nat)
    }
}

/// Runs the processors over the tree, a full round at a time and in order,
/// until a round changes nothing, so that placeholders may refer to values
/// that other placeholders produce. A round that changes nothing after
/// `max_passes` further rounds means a placeholder cycle: that is reported as
/// an error rather than looped on forever.
#[verifier::loop_isolation(false)]
pub fn run_pipeline(
    tree: Value,
    processors: &Vec<ProcessorKind>,
    env: &Vec<(String, String)>,
    max_passes: u64,
) -> (r: Result<Value, UnresolvedPlaceholders>)
    ensures
        match r {
            Ok(v) => run_passes(tree@, processors@, env@, max_passes as nat) == Some(v@)
                && !run_pass(v@, processors@, env@).1,
            Err(_) => run_passes(tree@, processors@, env@, max_passes as nat) is None,
        },
{
    let ghost start = tree@;
    let mut cur = tree;
    let mut left: u64 = max_passes;
    loop
        invariant
            run_passes(start, processors@, env@, max_passes as nat) == run_passes(
                cur@,
                processors@,
                env@,
                left as nat,
            ),
        decreases left,
    {
        let ghost pass_start = cur@;
        let mut changed = false;
        let mut k: usize = 0;
        while k < processors.len()
            invariant
                k <= processors@.len(),
                run_stages(pass_start, processors@, env@, 0).0 == run_stages(
                    cur@,
                    processors@,
                    env@,
                    k as nat,
                ).0,
                run_stages(pass_start, processors@, env@, 0).1 == (changed || run_stages(
                    cur@,
                    processors@,
                    env@,
                    k as nat,
                ).1),
                !changed ==> cur@ == pass_start,
            decreases processors@.len() - k,
        {
            let ghost before = cur@;
            let (t2, ch) = match processors[k] {
                ProcessorKind::EnvironmentVariable => EnvironmentVariableProcessor.process(
                    &cur,
                    env,
                ),
                ProcessorKind::PathVariable => PathVariableProcessor.process(&cur),
            };
            proof {
                assert(t2@ == stage_tree(before, processors@[k as int], env@));
                assert(ch == !stage_unchanged(before, processors@[k as int], env@));
                if !ch {
                    match processors@[k as int] {
                        ProcessorKind::EnvironmentVariable => {
                            lemma_subst_unchanged_iff(before, false, env_vals(env@));
                        },
                        ProcessorKind::PathVariable => {
                            lemma_subst_unchanged_iff(before, true, path_vals(before));
                        },
                    }
                    assert(t2@ == before);
                }
                assert(run_stages(before, processors@, env@, k as nat) == {
                    let rest = run_stages(t2@, processors@, env@, (k + 1) as nat);
                    (rest.0, ch || rest.1)
                });
            }
            cur = t2;
            changed = changed || ch;
            k += 1;
        }
        proof {
            assert(run_stages(cur@, processors@, env@, processors@.len() as nat) == (
                cur@,
                false,
            ));
            assert(run_pass(pass_start, processors@, env@) == (cur@, changed));
        }
        if !changed {
            proof {
                assert(run_passes(cur@, processors@, env@, left as nat) == Some(cur@));
            }
            return Ok(cur);
        }
        if left == 0 {
            proof {
                assert(run_passes(pass_start, processors@, env@, 0) is None);
            }
            return Err(UnresolvedPlaceholders);
        }
        left = left - 1;
        proof {
            assert(run_passes(pass_start, processors@, env@, (left + 1) as nat) == run_passes(
                cur@,
                processors@,
                env@,
                left as nat,
            ));
        }
    }
}

} // verus!
